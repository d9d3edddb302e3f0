//! `MultiIndexAgentTaskMap`: agent tasks stored in a slab and found again
//! through a hashed non-unique index on `agent_id` and an ordered unique
//! index on `task_id`.

use vstd::prelude::*;
use std::collections::BTreeMap;
use std::collections::BTreeSet;
use std::collections::HashMap;
use vstd::std_specs::iter::IteratorSpec;
use vstd::std_specs::cmp::OrdSpec;
use multi_index_map::slab::Slab;
use crate::agent_task::AgentTask;
use crate::agent_task::AgentState;
use crate::agent_task::ActivitySender;
use crate::agent_task::StopSender;
use crate::task_store::task_slots;
use crate::task_store::task_free_keys;
use crate::task_store::task_room;
use crate::task_store::empty_task_slots;
use crate::task_store::task_slab_new;
use crate::task_store::task_slab_with_capacity;
use crate::task_store::task_slab_capacity;
use crate::task_store::task_slab_len;
use crate::task_store::task_slab_is_empty;
use crate::task_store::task_slab_reserve;
use crate::task_store::task_slab_shrink_to_fit;
use crate::task_store::task_slab_insert;
use crate::task_store::task_slab_remove;
use crate::task_store::task_slab_index;
use crate::task_store::task_slab_index_mut;
use crate::task_store::task_slab_clear;
use crate::task_store::task_slab_entries;
use crate::task_store::task_slab_entries_mut;
use crate::order_store::MAX_STORED;
use crate::keys::lists_ascending;
use crate::keys::first_keys;
use crate::keys::ascending_keys;
use crate::keys::after_insert;
use crate::keys::free_keys_ok;
use crate::keys::ends_vacant;
use crate::keys::rebuilt_free_keys;
use crate::keys::lemma_free_after_insert;
use crate::keys::lemma_free_after_remove;
use crate::keys::lemma_free_after_shrink;
use crate::errors::UniquenessError;
use crate::outside::hash_map_shrink_to_fit;

verus! {

broadcast use {
    vstd::std_specs::hash::group_hash_axioms,
    vstd::std_specs::btree::group_btree_axioms,
};

// ---------------------------------------------------------------------------
// The model: a map from slot keys to tasks.
// ---------------------------------------------------------------------------

/// Some stored task has this `task_id`.
pub open spec fn holds_task_id(m: Map<usize, AgentTask>, id: u64) -> bool {
    exists|k: usize| m.contains_key(k) && m[k].task_id == id
}

/// The slot of the task with this `task_id`, if there is one.
pub open spec fn slot_of_task_id(m: Map<usize, AgentTask>, id: u64) -> Option<usize> {
    if holds_task_id(m, id) {
        Some(choose|k: usize| m.contains_key(k) && m[k].task_id == id)
    } else {
        None
    }
}

/// The slots whose task belongs to this agent.
pub open spec fn slots_of_agent(m: Map<usize, AgentTask>, a: u64) -> Set<usize> {
    m.dom().filter(|k: usize| m[k].agent_id == a)
}

/// No two stored tasks share a `task_id`.
pub open spec fn unique_task_ids(m: Map<usize, AgentTask>) -> bool {
    forall|k1: usize, k2: usize|
        m.contains_key(k1) && m.contains_key(k2) && m[k1].task_id == m[k2].task_id ==> k1 == k2
}

/// `e` may stand in slot `k`: no task in another slot has its `task_id`.
pub open spec fn task_fits_at(m: Map<usize, AgentTask>, k: usize, e: AgentTask) -> bool {
    forall|j: usize| m.contains_key(j) && j != k ==> m[j].task_id != e.task_id
}

/// `m2` holds the same slots as `m1`, with the same indexed fields.
pub open spec fn same_ids(m1: Map<usize, AgentTask>, m2: Map<usize, AgentTask>) -> bool {
    &&& m1.dom() == m2.dom()
    &&& forall|k: usize|
        #[trigger] m1.contains_key(k) ==> m1[k].agent_id == m2[k].agent_id && m1[k].task_id
            == m2[k].task_id
}

/// `refs` are the tasks of `m` at the slots `ks`, in that order.
pub open spec fn tasks_at(m: Map<usize, AgentTask>, ks: Seq<usize>, refs: Seq<&AgentTask>) -> bool {
    &&& refs.len() == ks.len()
    &&& forall|i: int| #![trigger ks[i]] #![trigger refs[i]]
        0 <= i < ks.len() ==> m.contains_key(ks[i]) && *refs[i] == m[ks[i]]
}

/// `ks` lists every key of `s` exactly once, in some order.
pub open spec fn lists_each(ks: Seq<usize>, s: Set<usize>) -> bool {
    &&& ks.to_set() == s
    &&& ks.no_duplicates()
}

/// `v` lists every slot of `m` with its task, by increasing key.
pub open spec fn lists_task_entries(m: Map<usize, AgentTask>, v: Seq<(usize, &AgentTask)>) -> bool {
    &&& forall|i: int, j: int| 0 <= i < j < v.len() ==> v[i].0 < v[j].0
    &&& forall|i: int| 0 <= i < v.len() ==> m.contains_key(#[trigger] v[i].0) && *v[i].1 == m[v[i].0]
    &&& forall|k: usize| m.contains_key(k) ==> exists|i: int| 0 <= i < v.len() && #[trigger] v[i].0 == k
}

/// In `ks` the tasks of each agent stand together, by increasing key.
pub open spec fn grouped_by_agent(m: Map<usize, AgentTask>, ks: Seq<usize>) -> bool {
    &&& forall|i: int, j: int, l: int|
        0 <= i < j < l < ks.len() && m[ks[i]].agent_id == m[ks[l]].agent_id ==> m[ks[j]].agent_id
            == m[ks[i]].agent_id
    &&& forall|i: int, j: int|
        0 <= i < j < ks.len() && m[ks[i]].agent_id == m[ks[j]].agent_id ==> ks[i] < ks[j]
}

/// The two indexes file exactly the tasks of `m`.
spec fn agent_indexes_agree(aids: Map<u64, BTreeSet<usize>>, tids: Map<u64, usize>, m: Map<usize, AgentTask>) -> bool {
    &&& forall|id: u64| #[trigger]
        tids.contains_key(id) ==> m.contains_key(tids[id]) && m[tids[id]].task_id == id
    &&& forall|k: usize| #[trigger]
        m.contains_key(k) ==> tids.contains_key(m[k].task_id) && tids[m[k].task_id] == k
    &&& forall|a: u64| #[trigger]
        aids.contains_key(a) ==> aids[a]@ == slots_of_agent(m, a) && aids[a]@ != Set::<usize>::empty()
    &&& forall|k: usize| #[trigger] m.contains_key(k) ==> aids.contains_key(m[k].agent_id)
}

/// Indexes that agree with `m1` agree with any `m2` with the same ids.
proof fn lemma_agree_same_ids(
    aids: Map<u64, BTreeSet<usize>>,
    tids: Map<u64, usize>,
    m1: Map<usize, AgentTask>,
    m2: Map<usize, AgentTask>,
)
    requires
        agent_indexes_agree(aids, tids, m1),
        same_ids(m1, m2),
    ensures
        agent_indexes_agree(aids, tids, m2),
{
    assert forall|a: u64| #[trigger] slots_of_agent(m1, a) == slots_of_agent(m2, a) by {
        assert(slots_of_agent(m1, a) =~= slots_of_agent(m2, a));
    }
}

/// The slots of one agent are finitely many when the map's are.
pub proof fn lemma_agent_slots_finite(m: Map<usize, AgentTask>, a: u64)
    requires
        m.dom().finite(),
    ensures
        slots_of_agent(m, a).finite(),
{
    m.dom().lemma_len_filter(|k: usize| m[k].agent_id == a);
}

/// Listing one more slot and its task keeps the listing right.
proof fn lemma_tasks_push(m: Map<usize, AgentTask>, ks: Seq<usize>, refs: Seq<&AgentTask>, k: usize, o: &AgentTask)
    requires
        tasks_at(m, ks, refs),
        m.contains_key(k),
        *o == m[k],
    ensures
        tasks_at(m, ks.push(k), refs.push(o)),
{
    let ka = ks.push(k);
    let ra = refs.push(o);
    assert forall|q: int| #![trigger ka[q]] 0 <= q < ka.len() implies m.contains_key(ka[q]) && *ra[q] == m[ka[q]] by {
        if q < ks.len() {
            assert(ka[q] == ks[q]);
            assert(ra[q] == refs[q]);
        }
    }
}

/// When `f` runs over `targets` in ascending slot order, the task that the
/// step at slot `k` produces clashes with no task that the indexes hold at
/// that moment (`v`): earlier targets hold what `f` made of them, every other
/// slot the task it had at the start.
proof fn lemma_task_step_fits<F: FnMut(&mut AgentTask)>(
    m: Map<usize, AgentTask>,
    targets: Set<usize>,
    k: usize,
    v: Map<usize, AgentTask>,
    after: AgentTask,
    f: F,
)
    requires
        targets.contains(k),
        v.dom() == m.dom(),
        forall|j: usize|
            v.contains_key(j) && j != k && targets.contains(j) && j < k ==> exists|x: &mut AgentTask|
                *x == m[j] && call_ensures(f, (x,), ()) && final(x).task_id == v[j].task_id,
        forall|j: usize|
            v.contains_key(j) && j != k && !(targets.contains(j) && j < k) ==> v[j].task_id == m[j].task_id,
        exists|x: &mut AgentTask| *x == m[k] && call_ensures(f, (x,), ()) && *final(x) == after,
        forall|k: usize, x: &mut AgentTask|
            #[trigger] targets.contains(k) && *x == m[k] && #[trigger] call_ensures(f, (x,), ())
                ==> forall|j: usize|
                m.contains_key(j) && j != k && !(targets.contains(j) && j < k) ==> m[j].task_id
                    != final(x).task_id,
        forall|k1: usize, k2: usize, x1: &mut AgentTask, x2: &mut AgentTask|
            #[trigger] targets.contains(k1) && #[trigger] targets.contains(k2) && k1 < k2 && *x1 == m[k1]
                && #[trigger] call_ensures(f, (x1,), ()) && *x2 == m[k2] && #[trigger] call_ensures(
                f,
                (x2,),
                (),
            ) ==> final(x1).task_id != final(x2).task_id,
    ensures
        task_fits_at(v, k, after),
{
    let x2 = choose|x: &mut AgentTask| *x == m[k] && call_ensures(f, (x,), ()) && *final(x) == after;
    assert forall|j: usize| v.contains_key(j) && j != k implies v[j].task_id != after.task_id by {
        if targets.contains(j) && j < k {
            let x1 = choose|x: &mut AgentTask|
                *x == m[j] && call_ensures(f, (x,), ()) && final(x).task_id == v[j].task_id;
            assert(targets.contains(j) && targets.contains(k));
        } else {
            assert(targets.contains(k));
        }
    }
}

/// Appending the slots of an agent not yet listed keeps each agent's tasks
/// together and every slot listed once.
proof fn lemma_append_agent_group(m: Map<usize, AgentTask>, ks0: Seq<usize>, g: Seq<usize>, a: u64)
    requires
        ks0.no_duplicates(),
        grouped_by_agent(m, ks0),
        forall|i: int| 0 <= i < ks0.len() ==> m[ks0[i]].agent_id != a,
        lists_ascending(g, slots_of_agent(m, a)),
    ensures
        (ks0 + g).no_duplicates(),
        grouped_by_agent(m, ks0 + g),
{
    let ks = ks0 + g;
    assert forall|i: int| 0 <= i < g.len() implies m[g[i]].agent_id == a by {
        assert(g.to_set().contains(g[i]));
    }
    assert forall|x: int, y: int| 0 <= x < ks.len() && 0 <= y < ks.len() && x != y implies ks[x] != ks[y] by {
        if x < ks0.len() && y >= ks0.len() {
            assert(m[ks[y]].agent_id == a);
        } else if y < ks0.len() && x >= ks0.len() {
            assert(m[ks[x]].agent_id == a);
        } else if x >= ks0.len() && y >= ks0.len() {
            if x < y {
                assert(g[x - ks0.len()] < g[y - ks0.len()]);
            } else {
                assert(g[y - ks0.len()] < g[x - ks0.len()]);
            }
        }
    }
    assert forall|i: int, j: int, l: int|
        0 <= i < j < l < ks.len() && m[ks[i]].agent_id == m[ks[l]].agent_id implies m[ks[j]].agent_id
        == m[ks[i]].agent_id by {
        if l < ks0.len() {
        } else if i >= ks0.len() {
            assert(m[ks[j]].agent_id == a);
        } else {
            assert(m[ks[l]].agent_id == a);
        }
    }
    assert forall|i: int, j: int|
        0 <= i < j < ks.len() && m[ks[i]].agent_id == m[ks[j]].agent_id implies ks[i] < ks[j] by {
        if j < ks0.len() {
        } else if i >= ks0.len() {
            assert(g[i - ks0.len()] < g[j - ks0.len()]);
        } else {
            assert(m[ks[j]].agent_id == a);
        }
    }
}

/// Walking the task-id index meets strictly increasing task ids.
proof fn lemma_increasing_task_ids(full: Seq<(&u64, &usize)>, m: Map<usize, AgentTask>, tids: Map<u64, usize>)
    requires
        vstd::std_specs::btree::increasing_seq(full.map_values(|kv: (&u64, &usize)| *kv.0)),
        forall|i: int|
            0 <= i < full.len() ==> tids.contains_key(#[trigger] *full[i].0) && tids[*full[i].0] == *full[i].1,
        forall|id: u64| #[trigger]
            tids.contains_key(id) ==> m.contains_key(tids[id]) && m[tids[id]].task_id == id,
    ensures
        forall|i: int, j: int|
            0 <= i < j < full.len() ==> m[*full[i].1].task_id < m[*full[j].1].task_id,
{
    broadcast use vstd::laws_cmp::group_laws_cmp;

    let keys = full.map_values(|kv: (&u64, &usize)| *kv.0);
    assert(vstd::laws_cmp::obeys_cmp::<u64>());
    assert forall|i: int, j: int| 0 <= i < j < full.len() implies m[*full[i].1].task_id
        < m[*full[j].1].task_id by {
        assert(OrdSpec::cmp_spec(&keys[i], &keys[j]) is Less);
        assert(tids.contains_key(*full[i].0));
        assert(tids.contains_key(*full[j].0));
    }
}

/// The slots named by the first `n` records.
pub open spec fn recorded_slots(mods: Seq<(usize, u64, u64, u64, u64)>, n: int) -> Set<usize> {
    Set::new(|k: usize| exists|q: int| 0 <= q < n && #[trigger] mods[q].0 == k)
}

// ---------------------------------------------------------------------------
// Laws: what a lookup finds after a store, a removal or a change.
// ---------------------------------------------------------------------------

/// With unique task ids, the task with `task_id` `id` is in slot `k` exactly
/// when slot `k` holds a task with that id.
proof fn lemma_slot_of_task_id(m: Map<usize, AgentTask>, id: u64, k: usize)
    requires
        unique_task_ids(m),
        m.contains_key(k),
        m[k].task_id == id,
    ensures
        slot_of_task_id(m, id) == Some(k),
{
    let j = choose|j: usize| m.contains_key(j) && m[j].task_id == id;
}

/// Storing a task whose `task_id` is free in a free slot `k` keeps the task
/// ids unique; a lookup by its `task_id` then finds slot `k`, its agent's
/// slots gain `k`, and every other `task_id` is found where it was.
pub proof fn law_task_found_after_insert(m: Map<usize, AgentTask>, k: usize, e: AgentTask)
    requires
        unique_task_ids(m),
        !m.contains_key(k),
        !holds_task_id(m, e.task_id),
    ensures
        unique_task_ids(m.insert(k, e)),
        slot_of_task_id(m.insert(k, e), e.task_id) == Some(k),
        slots_of_agent(m.insert(k, e), e.agent_id) == slots_of_agent(m, e.agent_id).insert(k),
        forall|id: u64|
            id != e.task_id ==> #[trigger] slot_of_task_id(m.insert(k, e), id) == slot_of_task_id(m, id),
{
    let m2 = m.insert(k, e);
    assert(unique_task_ids(m2)) by {
        assert forall|k1: usize, k2: usize|
            m2.contains_key(k1) && m2.contains_key(k2) && m2[k1].task_id == m2[k2].task_id implies k1
                == k2 by {
            if k1 != k && k2 == k {
                assert(m.contains_key(k1));
            } else if k1 == k && k2 != k {
                assert(m.contains_key(k2));
            }
        }
    }
    lemma_slot_of_task_id(m2, e.task_id, k);
    assert(slots_of_agent(m2, e.agent_id) =~= slots_of_agent(m, e.agent_id).insert(k));
    assert forall|id: u64| id != e.task_id implies #[trigger] slot_of_task_id(m2, id) == slot_of_task_id(m, id) by {
        if holds_task_id(m, id) {
            let j = choose|j: usize| m.contains_key(j) && m[j].task_id == id;
            lemma_slot_of_task_id(m, id, j);
            lemma_slot_of_task_id(m2, id, j);
        } else {
            assert(!holds_task_id(m2, id));
        }
    }
}

/// Removing by `task_id` right after a store that was not refused takes out
/// the slot the task went to, hands back that task, and leaves the map as it
/// was before the store.
pub proof fn law_task_remove_undoes_insert(m: Map<usize, AgentTask>, k: usize, e: AgentTask)
    requires
        unique_task_ids(m),
        !m.contains_key(k),
        !holds_task_id(m, e.task_id),
    ensures
        slot_of_task_id(m.insert(k, e), e.task_id) == Some(k),
        m.insert(k, e)[k] == e,
        m.insert(k, e).remove(k) == m,
{
    law_task_found_after_insert(m, k, e);
    assert(m.insert(k, e).remove(k) =~= m);
}

/// After the task in slot `k` is changed to `o`, whose `task_id` no other
/// task has, the task ids stay unique; `o` is found under its `task_id` and
/// its agent, and no longer under the ids it gave up.
pub proof fn law_task_found_after_change(m: Map<usize, AgentTask>, k: usize, o: AgentTask)
    requires
        unique_task_ids(m),
        m.contains_key(k),
        task_fits_at(m, k, o),
    ensures
        unique_task_ids(m.insert(k, o)),
        slot_of_task_id(m.insert(k, o), o.task_id) == Some(k),
        slots_of_agent(m.insert(k, o), o.agent_id).contains(k),
        o.task_id != m[k].task_id ==> slot_of_task_id(m.insert(k, o), m[k].task_id) is None,
        o.agent_id != m[k].agent_id ==> !slots_of_agent(m.insert(k, o), m[k].agent_id).contains(k),
{
    let m2 = m.insert(k, o);
    assert(unique_task_ids(m2)) by {
        assert forall|k1: usize, k2: usize|
            m2.contains_key(k1) && m2.contains_key(k2) && m2[k1].task_id == m2[k2].task_id implies k1
                == k2 by {
            if k1 != k && k2 == k {
                assert(m.contains_key(k1));
            } else if k1 == k && k2 != k {
                assert(m.contains_key(k2));
            } else if k1 != k && k2 != k {
                assert(m.contains_key(k1) && m.contains_key(k2));
            }
        }
    }
    lemma_slot_of_task_id(m2, o.task_id, k);
    if o.task_id != m[k].task_id {
        assert(!holds_task_id(m2, m[k].task_id)) by {
            if holds_task_id(m2, m[k].task_id) {
                let j = choose|j: usize| m2.contains_key(j) && m2[j].task_id == m[k].task_id;
                assert(j != k);
                assert(m.contains_key(j));
            }
        }
    }
}

/// With no slot vacant (the free keys are only the end of the entry
/// vector), a store takes a slot past every stored task, so the store's
/// agent, listed in slot order, gains the new task at the end: tasks stored
/// one after another come back in that order.
pub proof fn law_task_insert_goes_last(m: Map<usize, AgentTask>, f: Seq<usize>, e: AgentTask, ks: Seq<usize>)
    requires
        free_keys_ok(m.dom(), f),
        f.len() == 1,
        lists_ascending(ks, slots_of_agent(m, e.agent_id)),
    ensures
        forall|k: usize| m.contains_key(k) ==> k < f[0],
        lists_ascending(ks.push(f[0]), slots_of_agent(m.insert(f[0], e), e.agent_id)),
{
    let k = f[0];
    let ks2 = ks.push(k);
    assert forall|i: int| 0 <= i < ks.len() implies ks[i] < k by {
        assert(ks.to_set().contains(ks[i]));
    }
    assert(ks2.to_set() =~= slots_of_agent(m.insert(k, e), e.agent_id)) by {
        assert forall|j: usize| ks2.to_set().contains(j) implies slots_of_agent(m.insert(k, e), e.agent_id).contains(j) by {
            if j != k {
                let i = choose|i: int| 0 <= i < ks2.len() && ks2[i] == j;
                assert(ks[i] == j);
                assert(ks.to_set().contains(j));
            }
        }
        assert forall|j: usize| slots_of_agent(m.insert(k, e), e.agent_id).contains(j) implies ks2.to_set().contains(j) by {
            if j == k {
                assert(ks2[ks.len() as int] == k);
            } else {
                assert(slots_of_agent(m, e.agent_id).contains(j));
                assert(ks.to_set().contains(j));
                let i = choose|i: int| 0 <= i < ks.len() && ks[i] == j;
                assert(ks2[i] == j);
            }
        }
    }
}

// ---------------------------------------------------------------------------
// The agent index.
// ---------------------------------------------------------------------------

/// The slots filed under agent `a` before a change, or none.
pub open spec fn filed_for(idx: Map<u64, BTreeSet<usize>>, a: u64) -> Set<usize> {
    if idx.contains_key(a) {
        idx[a]@
    } else {
        Set::empty()
    }
}

/// Files slot `k` under agent `a`.
fn agent_add(idx: &mut HashMap<u64, BTreeSet<usize>>, a: u64, k: usize)
    ensures
        final(idx)@.dom() == old(idx)@.dom().insert(a),
        final(idx)@[a]@ == filed_for(old(idx)@, a).insert(k),
        forall|n: u64| n != a && old(idx)@.contains_key(n) ==> #[trigger] final(idx)@[n] == old(idx)@[n],
{
    let mut set: BTreeSet<usize> = match idx.get(&a) {
        Some(s) => s.clone(),
        None => BTreeSet::new(),
    };
    set.insert(k);
    idx.insert(a, set);
}

/// Takes slot `k` out of the slots filed under agent `a`, and drops `a`
/// when `k` was its last slot.
fn agent_drop(idx: &mut HashMap<u64, BTreeSet<usize>>, a: u64, k: usize)
    requires
        old(idx)@.contains_key(a),
        old(idx)@[a]@.contains(k),
        old(idx)@[a]@.finite(),
    ensures
        final(idx)@.remove(a) == old(idx)@.remove(a),
        old(idx)@[a]@.remove(k) == Set::<usize>::empty() ==> !final(idx)@.contains_key(a),
        old(idx)@[a]@.remove(k) != Set::<usize>::empty() ==> final(idx)@.contains_key(a)
            && final(idx)@[a]@ == old(idx)@[a]@.remove(k),
{
    let cur: BTreeSet<usize> = match idx.get(&a) {
        Some(s) => s.clone(),
        None => BTreeSet::new(),
    };
    if cur.len() > 1 {
        let mut rest = cur;
        rest.remove(&k);
        idx.insert(a, rest);
    } else {
        proof {
            assert(cur@.remove(k).len() == 0);
            assert(cur@.remove(k) =~= Set::<usize>::empty());
        }
        idx.remove(&a);
    }
}

// ---------------------------------------------------------------------------
// The map.
// ---------------------------------------------------------------------------

/// Agent tasks in a slab, indexed two ways.
pub struct MultiIndexAgentTaskMap {
    store: Slab<AgentTask>,
    agent_id_index: HashMap<u64, BTreeSet<usize>>,
    task_id_index: BTreeMap<u64, usize>,
}

impl View for MultiIndexAgentTaskMap {
    type V = Map<usize, AgentTask>;

    /// The stored tasks by slot key.
    closed spec fn view(&self) -> Map<usize, AgentTask> {
        task_slots(self.store)
    }
}

impl MultiIndexAgentTaskMap {
    /// Both indexes agree with the store, and the store's vacancy list is
    /// well formed.
    pub closed spec fn wf(&self) -> bool {
        &&& task_slots(self.store).dom().finite()
        &&& agent_indexes_agree(self.agent_id_index@, self.task_id_index@, task_slots(self.store))
        &&& free_keys_ok(task_slots(self.store).dom(), task_free_keys(self.store))
    }

    /// How many elements the store's entry vector has room for, as
    /// `capacity` reports it.
    pub closed spec fn room(&self) -> nat {
        task_room(self.store)
    }

    /// The slots that the next stores take, in that order: the store's
    /// vacant slots as its vacancy list links them, then the end of its entry
    /// vector.
    pub closed spec fn free_keys(&self) -> Seq<usize> {
        task_free_keys(self.store)
    }

    /// A well formed map holds finitely many tasks, and its free slots are
    /// vacant, distinct, and end past every stored task.
    pub proof fn lemma_store_facts(&self)
        requires
            self.wf(),
        ensures
            self@.dom().finite(),
            free_keys_ok(self@.dom(), self.free_keys()),
    {
    }

    /// No two stored tasks share a `task_id`.
    pub proof fn law_task_ids_unique(&self)
        requires
            self.wf(),
        ensures
            unique_task_ids(self@),
    {
        let m = self@;
        assert forall|k1: usize, k2: usize|
            m.contains_key(k1) && m.contains_key(k2) && m[k1].task_id == m[k2].task_id implies k1 == k2 by {
            assert(self.task_id_index@[m[k1].task_id] == k1);
            assert(self.task_id_index@[m[k2].task_id] == k2);
        }
    }

    /// A map that stores nothing, with room for `n` tasks in its slab.
    pub fn with_capacity(n: usize) -> (r: Self)
        requires
            n <= MAX_STORED,
        ensures
            r.wf(),
            r.room() >= n,
            r@ == empty_task_slots(),
            r.free_keys() == seq![0usize],
    {
        MultiIndexAgentTaskMap {
            store: task_slab_with_capacity(n),
            agent_id_index: HashMap::new(),
            task_id_index: BTreeMap::new(),
        }
    }

    /// The slab's allocated room: at least the number of stored tasks.
    pub fn capacity(&self) -> (c: usize)
        requires
            self.wf(),
        ensures
            c == self.room(),
            c >= self@.len(),
    {
        task_slab_capacity(&self.store)
    }

    /// The number of stored tasks.
    pub fn len(&self) -> (n: usize)
        requires
            self.wf(),
        ensures
            n == self@.len(),
    {
        task_slab_len(&self.store)
    }

    /// Whether no task is stored.
    pub fn is_empty(&self) -> (b: bool)
        requires
            self.wf(),
        ensures
            b == (self@ == empty_task_slots()),
    {
        let b = task_slab_is_empty(&self.store);
        proof {
            if b {
                assert(self@ =~= empty_task_slots());
            } else {
                assert(self@.dom() != empty_task_slots().dom());
            }
        }
        b
    }

    /// Makes room for `additional` more tasks; the contents stay as they are.
    pub fn reserve(&mut self, additional: usize)
        requires
            old(self).wf(),
            old(self)@.len() + additional <= MAX_STORED,
        ensures
            final(self).wf(),
            final(self).room() >= old(self)@.len() + additional,
            final(self).free_keys() == old(self).free_keys(),
            final(self)@ == old(self)@,
    {
        task_slab_reserve(&mut self.store, additional);
        self.agent_id_index.reserve(additional);
    }

    /// Gives back spare room; the contents stay as they are. When the store
    /// ends in vacant slots it drops them, and the free slots are then listed
    /// afresh in increasing order.
    pub fn shrink_to_fit(&mut self)
        requires
            old(self).wf(),
        ensures
            final(self).wf(),
            final(self).room() >= old(self)@.len(),
            !ends_vacant(old(self)@.dom(), old(self).free_keys()) ==> final(self).free_keys()
                == old(self).free_keys(),
            ends_vacant(old(self)@.dom(), old(self).free_keys()) ==> rebuilt_free_keys(
                old(self)@.dom(),
                final(self).free_keys(),
            ),
            final(self)@ == old(self)@,
    {
        let ghost f = task_free_keys(self.store);
        task_slab_shrink_to_fit(&mut self.store);
        proof {
            lemma_free_after_shrink(self@.dom(), f, task_free_keys(self.store));
        }
        hash_map_shrink_to_fit(&mut self.agent_id_index);
    }

    /// Removes every task.
    pub fn clear(&mut self)
        requires
            old(self).wf(),
        ensures
            final(self).wf(),
            final(self).room() == old(self).room(),
            final(self).free_keys() == seq![0usize],
            final(self)@ == empty_task_slots(),
    {
        task_slab_clear(&mut self.store);
        self.agent_id_index.clear();
        self.task_id_index.clear();
    }

    /// Stores `elem` in the first free slot, unless its `task_id` is taken;
    /// then the map is left as it was and `elem` comes back in the error.
    pub fn try_insert(&mut self, elem: AgentTask) -> (r: Result<&AgentTask, UniquenessError<AgentTask>>)
        requires
            old(self).wf(),
            old(self)@.len() < MAX_STORED,
        ensures
            final(self).wf(),
            final(self).room() >= old(self).room(),
            match r {
                Ok(o) => {
                    &&& !holds_task_id(old(self)@, elem.task_id)
                    &&& *o == elem
                    &&& !old(self)@.contains_key(old(self).free_keys()[0])
                    &&& final(self)@ == old(self)@.insert(old(self).free_keys()[0], elem)
                    &&& final(self).free_keys() == after_insert(old(self).free_keys())
                },
                Err(e) => {
                    &&& holds_task_id(old(self)@, elem.task_id)
                    &&& e.0 == elem
                    &&& final(self)@ == old(self)@
                    &&& final(self).free_keys() == old(self).free_keys()
                },
            },
    {
        let ghost m = self@;
        if self.task_id_index.contains_key(&elem.task_id) {
            assert(m.contains_key(self.task_id_index@[elem.task_id]));
            return Err(UniquenessError(elem));
        }
        let agent_id = elem.agent_id;
        let task_id = elem.task_id;
        let ghost e = elem;
        proof {
            lemma_free_after_insert(m.dom(), task_free_keys(self.store));
        }
        let idx = task_slab_insert(&mut self.store, elem);
        agent_add(&mut self.agent_id_index, agent_id, idx);
        self.task_id_index.insert(task_id, idx);
        proof {
            let m2 = self@;
            assert(m2 == m.insert(idx, e));
            assert forall|a: u64| #[trigger] self.agent_id_index@.contains_key(a) implies self.agent_id_index@[a]@
                == slots_of_agent(m2, a) && self.agent_id_index@[a]@ != Set::<usize>::empty() by {
                if a == e.agent_id {
                    assert(self.agent_id_index@[a]@.contains(idx));
                    assert(self.agent_id_index@[a]@ =~= slots_of_agent(m2, a));
                } else {
                    assert(self.agent_id_index@[a]@ =~= slots_of_agent(m2, a));
                }
            }
            assert(!holds_task_id(m, e.task_id));
        }
        Ok(task_slab_index(&self.store, idx))
    }

    /// Stores `elem` in the first free slot; its `task_id` must be free (the
    /// map panics otherwise).
    pub fn insert(&mut self, elem: AgentTask) -> (r: &AgentTask)
        requires
            old(self).wf(),
            old(self)@.len() < MAX_STORED,
            !holds_task_id(old(self)@, elem.task_id),
        ensures
            final(self).wf(),
            final(self).room() >= old(self).room(),
            *r == elem,
            !old(self)@.contains_key(old(self).free_keys()[0]),
            final(self)@ == old(self)@.insert(old(self).free_keys()[0], elem),
            final(self).free_keys() == after_insert(old(self).free_keys()),
    {
        self.try_insert(elem).expect("Unable to insert element")
    }

    /// Takes the task out of slot `k` and drops `k` from both indexes.
    fn remove_slot(&mut self, k: usize) -> (o: AgentTask)
        requires
            old(self).wf(),
            old(self)@.contains_key(k),
        ensures
            final(self).wf(),
            final(self).room() == old(self).room(),
            o == old(self)@[k],
            final(self)@ == old(self)@.remove(k),
            final(self).free_keys() == seq![k] + old(self).free_keys(),
    {
        let ghost m = self@;
        proof {
            lemma_free_after_remove(m.dom(), task_free_keys(self.store), k);
        }
        let elem = task_slab_remove(&mut self.store, k);
        proof {
            lemma_agent_slots_finite(m, elem.agent_id);
            assert(slots_of_agent(m, elem.agent_id).contains(k));
        }
        let ghost old_aids = self.agent_id_index@;
        agent_drop(&mut self.agent_id_index, elem.agent_id, k);
        self.task_id_index.remove(&elem.task_id);
        proof {
            let m2 = self@;
            assert(m2 == m.remove(k));
            let aids = self.agent_id_index@;
            let a0 = elem.agent_id;
            assert forall|a: u64| #[trigger] aids.contains_key(a) implies aids[a]@ == slots_of_agent(m2, a)
                && aids[a]@ != Set::<usize>::empty() by {
                if a == a0 {
                    assert(aids[a]@ =~= slots_of_agent(m2, a));
                } else {
                    assert(aids.remove(a0).contains_key(a));
                    assert(old_aids.remove(a0).contains_key(a));
                    assert(aids.remove(a0)[a] == aids[a]);
                    assert(old_aids.remove(a0)[a] == old_aids[a]);
                    assert(aids[a]@ =~= slots_of_agent(m2, a));
                }
            }
            assert forall|j: usize| #[trigger] m2.contains_key(j) implies aids.contains_key(m2[j].agent_id) by {
                if m2[j].agent_id == a0 {
                    assert(slots_of_agent(m, a0).remove(k).contains(j));
                    assert(old_aids[a0]@.remove(k) != Set::<usize>::empty());
                } else {
                    assert(old_aids.contains_key(m2[j].agent_id));
                    assert(old_aids.remove(a0).contains_key(m2[j].agent_id));
                    assert(aids.remove(a0).contains_key(m2[j].agent_id));
                }
            }
        }
        elem
    }

    /// Removes the task with this `task_id`, if one is stored, and hands it
    /// back.
    pub fn remove_by_task_id(&mut self, key: &u64) -> (r: Option<AgentTask>)
        requires
            old(self).wf(),
        ensures
            final(self).wf(),
            final(self).room() == old(self).room(),
            match slot_of_task_id(old(self)@, *key) {
                Some(k) => {
                    &&& r == Some(old(self)@[k])
                    &&& final(self)@ == old(self)@.remove(k)
                    &&& final(self).free_keys() == seq![k] + old(self).free_keys()
                },
                None => r is None && final(self)@ == old(self)@ && final(self).free_keys() == old(
                    self,
                ).free_keys(),
            },
    {
        match self.task_id_index.get(key) {
            Some(k) => {
                let k = *k;
                Some(self.remove_slot(k))
            },
            None => None,
        }
    }

    /// The slots of this agent's tasks, ascending.
    fn agent_slots(&self, key: &u64) -> (ks: Vec<usize>)
        requires
            self.wf(),
        ensures
            lists_ascending(ks@, slots_of_agent(self@, *key)),
    {
        let ghost m = self@;
        let ks: Vec<usize> = match self.agent_id_index.get(key) {
            Some(set) => ascending_keys(set),
            None => Vec::new(),
        };
        proof {
            if !self.agent_id_index@.contains_key(*key) {
                assert forall|k: usize| !slots_of_agent(m, *key).contains(k) by {
                    if slots_of_agent(m, *key).contains(k) {
                        assert(self.agent_id_index@.contains_key(m[k].agent_id));
                    }
                }
                assert(ks@.to_set() =~= slots_of_agent(m, *key));
            }
        }
        ks
    }

    /// The tasks in the slots `ks`, in that order.
    fn tasks_at_slots(&self, ks: &Vec<usize>) -> (r: Vec<&AgentTask>)
        requires
            forall|i: int| 0 <= i < ks@.len() ==> self@.contains_key(#[trigger] ks@[i]),
        ensures
            tasks_at(self@, ks@, r@),
    {
        let mut out: Vec<&AgentTask> = Vec::new();
        let mut p: usize = 0;
        while p < ks.len()
            invariant
                forall|i: int| 0 <= i < ks@.len() ==> self@.contains_key(#[trigger] ks@[i]),
                0 <= p <= ks@.len(),
                tasks_at(self@, ks@.take(p as int), out@),
            decreases ks@.len() - p,
        {
            let o = task_slab_index(&self.store, ks[p]);
            proof {
                lemma_tasks_push(self@, ks@.take(p as int), out@, ks@[p as int], o);
                assert(ks@.take(p as int).push(ks@[p as int]) =~= ks@.take(p + 1));
            }
            out.push(o);
            p = p + 1;
        }
        proof {
            assert(ks@.take(ks@.len() as int) =~= ks@);
        }
        out
    }

    /// Removes every task of this agent and hands them back in slot order.
    pub fn remove_by_agent_id(&mut self, key: &u64) -> (r: Vec<AgentTask>)
        requires
            old(self).wf(),
        ensures
            final(self).wf(),
            final(self).room() == old(self).room(),
            final(self)@ == old(self)@.remove_keys(slots_of_agent(old(self)@, *key)),
            exists|ks: Seq<usize>|
                {
                    &&& lists_ascending(ks, slots_of_agent(old(self)@, *key))
                    &&& r@.len() == ks.len()
                    &&& forall|i: int| 0 <= i < ks.len() ==> r@[i] == old(self)@[#[trigger] ks[i]]
                    &&& final(self).free_keys() == ks.reverse() + old(self).free_keys()
                },
    {
        let ghost m = self@;
        let ghost rm0 = self.room();
        let ghost doomed = slots_of_agent(m, *key);
        let ghost f0 = self.free_keys();
        let ks = self.agent_slots(key);
        let mut out: Vec<AgentTask> = Vec::new();
        let mut i: usize = 0;
        while i < ks.len()
            invariant
                self.room() == rm0,
                self.wf(),
                self.free_keys() == ks@.take(i as int).reverse() + f0,
                lists_ascending(ks@, doomed),
                doomed == slots_of_agent(m, *key),
                0 <= i <= ks@.len(),
                self@ == m.remove_keys(first_keys(ks@, i as int)),
                out@.len() == i,
                forall|j: int| 0 <= j < i ==> out@[j] == m[#[trigger] ks@[j]],
            decreases ks@.len() - i,
        {
            let k = ks[i];
            proof {
                assert(ks@.to_set().contains(k));
                assert(!first_keys(ks@, i as int).contains(k)) by {
                    if first_keys(ks@, i as int).contains(k) {
                        let j = choose|j: int| 0 <= j < i && ks@[j] == k;
                        assert(ks@[j] < ks@[i as int]);
                    }
                }
            }
            let o = self.remove_slot(k);
            out.push(o);
            proof {
                assert(first_keys(ks@, i + 1) =~= first_keys(ks@, i as int).insert(k));
                assert(self@ =~= m.remove_keys(first_keys(ks@, i + 1)));
                assert(ks@.take(i + 1).reverse() =~= seq![k] + ks@.take(i as int).reverse());
            }
            i = i + 1;
        }
        proof {
            assert(first_keys(ks@, ks@.len() as int) =~= doomed);
            assert(ks@.take(ks@.len() as int) =~= ks@);
        }
        out
    }

    /// Refiles slot `k`, whose task the indexes still file with the ids it
    /// has in `v`, under the ids it has in the store now.
    fn refile(&mut self, k: usize, orig_agent: u64, orig_task: u64, Ghost(v): Ghost<Map<usize, AgentTask>>)
        requires
            agent_indexes_agree(old(self).agent_id_index@, old(self).task_id_index@, v),
            v.dom().finite(),
            v.contains_key(k),
            v[k].agent_id == orig_agent,
            v[k].task_id == orig_task,
            old(self)@.contains_key(k),
            task_fits_at(v, k, old(self)@[k]),
        ensures
            agent_indexes_agree(
                final(self).agent_id_index@,
                final(self).task_id_index@,
                v.insert(k, old(self)@[k]),
            ),
            final(self)@ == old(self)@,
            final(self).free_keys() == old(self).free_keys(),
            final(self).room() == old(self).room(),
    {
        let ghost n = self@[k];
        let ghost m = v.insert(k, n);
        let e = task_slab_index(&self.store, k);
        if e.agent_id != orig_agent {
            proof {
                lemma_agent_slots_finite(v, orig_agent);
                assert(slots_of_agent(v, orig_agent).contains(k));
            }
            let ghost a0 = self.agent_id_index@;
            agent_drop(&mut self.agent_id_index, orig_agent, k);
            let ghost a1 = self.agent_id_index@;
            agent_add(&mut self.agent_id_index, e.agent_id, k);
            proof {
                let aids = self.agent_id_index@;
                let on = orig_agent;
                let nn = n.agent_id;
                assert forall|a: u64| #[trigger] aids.contains_key(a) implies aids[a]@ == slots_of_agent(m, a)
                    && aids[a]@ != Set::<usize>::empty() by {
                    if a == nn {
                        if a0.contains_key(nn) {
                            assert(a1.remove(on).contains_key(nn));
                            assert(a0.remove(on).contains_key(nn));
                            assert(a1.remove(on)[nn] == a1[nn]);
                            assert(a0.remove(on)[nn] == a0[nn]);
                            assert(a1[nn]@ == slots_of_agent(v, nn));
                        } else {
                            assert(!a1.contains_key(nn)) by {
                                if a1.contains_key(nn) {
                                    assert(a1.remove(on).contains_key(nn));
                                }
                            }
                            assert forall|j: usize| !slots_of_agent(v, nn).contains(j) by {
                                if slots_of_agent(v, nn).contains(j) {
                                    assert(v.contains_key(j));
                                }
                            }
                        }
                        assert(aids[a]@ =~= slots_of_agent(m, a));
                        assert(aids[a]@.contains(k));
                    } else if a == on {
                        assert(a1.contains_key(a));
                        assert(aids[a] == a1[a]);
                        assert(a1[a]@ == a0[a]@.remove(k));
                        assert(aids[a]@ =~= slots_of_agent(m, a));
                    } else {
                        assert(a1.contains_key(a));
                        assert(a1.remove(on).contains_key(a));
                        assert(a0.remove(on).contains_key(a));
                        assert(a1.remove(on)[a] == a1[a]);
                        assert(a0.remove(on)[a] == a0[a]);
                        assert(aids[a]@ =~= slots_of_agent(m, a));
                    }
                }
                assert forall|j: usize| #[trigger] m.contains_key(j) implies aids.contains_key(m[j].agent_id) by {
                    let ja = m[j].agent_id;
                    assert(v.contains_key(j));
                    if ja != nn && ja != on {
                        assert(a0.remove(on).contains_key(ja));
                        assert(a1.remove(on).contains_key(ja));
                    } else if ja == on && ja != nn {
                        assert(slots_of_agent(v, on).remove(k).contains(j));
                    }
                }
            }
        } else {
            proof {
                let aids = self.agent_id_index@;
                assert forall|a: u64| #[trigger] aids.contains_key(a) implies aids[a]@ == slots_of_agent(m, a)
                    && aids[a]@ != Set::<usize>::empty() by {
                    assert(slots_of_agent(v, a) =~= slots_of_agent(m, a));
                }
                assert forall|j: usize| #[trigger] m.contains_key(j) implies aids.contains_key(m[j].agent_id) by {
                    assert(v.contains_key(j));
                }
            }
        }
        if e.task_id != orig_task {
            self.task_id_index.remove(&orig_task);
            self.task_id_index.insert(e.task_id, k);
        }
        proof {
            let tids = self.task_id_index@;
            assert forall|id: u64| #[trigger] tids.contains_key(id) implies m.contains_key(tids[id])
                && m[tids[id]].task_id == id by {
                if id != n.task_id && id != orig_task {
                    assert(v.contains_key(tids[id]) && v[tids[id]].task_id == id);
                }
            }
            assert forall|j: usize| #[trigger] m.contains_key(j) implies tids.contains_key(m[j].task_id)
                && tids[m[j].task_id] == j by {
                assert(v.contains_key(j));
            }
        }
    }

    /// Applies `f` to the task with this `task_id`, if one is stored, then
    /// refiles it under its new ids. `f` must not give it a `task_id` that
    /// another task has (the map panics on that).
    pub fn modify_by_task_id(&mut self, key: &u64, f: impl FnOnce(&mut AgentTask)) -> (r: Option<&AgentTask>)
        requires
            old(self).wf(),
            forall|x: &mut AgentTask|
                slot_of_task_id(old(self)@, *key) matches Some(k) ==> (*x == old(self)@[k]
                    ==> #[trigger] call_requires(f, (x,))),
            forall|x: &mut AgentTask|
                slot_of_task_id(old(self)@, *key) matches Some(k) ==> (*x == old(self)@[k]
                    && #[trigger] call_ensures(f, (x,), ()) ==> task_fits_at(old(self)@, k, *final(x))),
        ensures
            final(self).wf(),
            final(self).room() == old(self).room(),
            final(self).free_keys() == old(self).free_keys(),
            match slot_of_task_id(old(self)@, *key) {
                Some(k) => {
                    &&& r is Some
                    &&& exists|x: &mut AgentTask|
                        *x == old(self)@[k] && call_ensures(f, (x,), ()) && *final(x) == *r.unwrap()
                    &&& final(self)@ == old(self)@.insert(k, *r.unwrap())
                },
                None => r is None && final(self)@ == old(self)@,
            },
    {
        let k = match self.task_id_index.get(key) {
            Some(k) => *k,
            None => return None,
        };
        let ghost m = self@;
        let elem = task_slab_index_mut(&mut self.store, k);
        let orig_agent = elem.agent_id;
        let orig_task = elem.task_id;
        f(elem);
        let ghost after = *elem;
        proof {
            assert(self@[k] == after);
            assert(task_fits_at(m, k, after));
        }
        self.refile(k, orig_agent, orig_task, Ghost(m));
        proof {
            assert(m.insert(k, after) =~= self@);
        }
        Some(task_slab_index(&self.store, k))
    }

    /// Applies `f` to every task of this agent, in slot order, refiling each
    /// one right after its change, and returns them in slot order. No task
    /// may be given a `task_id` that some other task holds at the moment of
    /// its change (the map panics on that).
    pub fn modify_by_agent_id2(&mut self, key: &u64, mut f: impl FnMut(&mut AgentTask)) -> (r: Vec<&AgentTask>)
        requires
            old(self).wf(),
            forall|k: usize, x: &mut AgentTask|
                slots_of_agent(old(self)@, *key).contains(k) && *x == old(self)@[k] ==> call_requires(
                    f,
                    (x,),
                ),
            forall|k: usize, x: &mut AgentTask|
                #[trigger] slots_of_agent(old(self)@, *key).contains(k) && *x == old(self)@[k]
                    && #[trigger] call_ensures(f, (x,), ()) ==> forall|j: usize|
                    old(self)@.contains_key(j) && j != k && !(slots_of_agent(old(self)@, *key).contains(j)
                        && j < k) ==> old(self)@[j].task_id != final(x).task_id,
            forall|k1: usize, k2: usize, x1: &mut AgentTask, x2: &mut AgentTask|
                #[trigger] slots_of_agent(old(self)@, *key).contains(k1)
                    && #[trigger] slots_of_agent(old(self)@, *key).contains(k2) && k1 < k2 && *x1
                    == old(self)@[k1] && #[trigger] call_ensures(f, (x1,), ()) && *x2 == old(self)@[k2]
                    && #[trigger] call_ensures(f, (x2,), ()) ==> final(x1).task_id != final(x2).task_id,
        ensures
            final(self).wf(),
            final(self).room() == old(self).room(),
            final(self).free_keys() == old(self).free_keys(),
            final(self)@.dom() == old(self)@.dom(),
            forall|k: usize|
                old(self)@.contains_key(k) && !slots_of_agent(old(self)@, *key).contains(k)
                    ==> final(self)@[k] == old(self)@[k],
            forall|k: usize|
                slots_of_agent(old(self)@, *key).contains(k) ==> exists|x: &mut AgentTask|
                    *x == old(self)@[k] && call_ensures(f, (x,), ()) && *final(x) == final(self)@[k],
            exists|ks: Seq<usize>|
                lists_ascending(ks, slots_of_agent(old(self)@, *key)) && tasks_at(final(self)@, ks, r@),
    {
        let ghost m = self@;
        let ghost rm0 = self.room();
        let ghost fk0 = self.free_keys();
        let ghost f0 = f;
        let ghost targets = slots_of_agent(m, *key);
        let ks = self.agent_slots(key);
        let mut i: usize = 0;
        while i < ks.len()
            invariant
                self.room() == rm0,
                self.free_keys() == fk0,
                free_keys_ok(m.dom(), fk0),
                self.wf(),
                f == f0,
                lists_ascending(ks@, targets),
                targets == slots_of_agent(m, *key),
                0 <= i <= ks@.len(),
                self@.dom() == m.dom(),
                forall|j: usize|
                    m.contains_key(j) && !first_keys(ks@, i as int).contains(j) ==> self@[j] == m[j],
                forall|j: usize|
                    first_keys(ks@, i as int).contains(j) ==> exists|x: &mut AgentTask|
                        *x == m[j] && call_ensures(f0, (x,), ()) && *final(x) == self@[j],
                forall|k: usize, x: &mut AgentTask|
                    targets.contains(k) && *x == m[k] ==> call_requires(f0, (x,)),
                forall|k: usize, x: &mut AgentTask|
                    #[trigger] targets.contains(k) && *x == m[k] && #[trigger] call_ensures(f0, (x,), ())
                        ==> forall|j: usize|
                        m.contains_key(j) && j != k && !(targets.contains(j) && j < k)
                            ==> m[j].task_id != final(x).task_id,
                forall|k1: usize, k2: usize, x1: &mut AgentTask, x2: &mut AgentTask|
                    #[trigger] targets.contains(k1) && #[trigger] targets.contains(k2) && k1 < k2 && *x1
                        == m[k1] && #[trigger] call_ensures(f0, (x1,), ()) && *x2 == m[k2]
                        && #[trigger] call_ensures(f0, (x2,), ()) ==> final(x1).task_id != final(x2).task_id,
            decreases ks@.len() - i,
        {
            let k = ks[i];
            let ghost cur = self@;
            proof {
                assert(ks@.to_set().contains(k));
                assert(!first_keys(ks@, i as int).contains(k)) by {
                    if first_keys(ks@, i as int).contains(k) {
                        let j = choose|j: int| 0 <= j < i && ks@[j] == k;
                        assert(ks@[j] < ks@[i as int]);
                    }
                }
            }
            let elem = task_slab_index_mut(&mut self.store, k);
            let orig_agent = elem.agent_id;
            let orig_task = elem.task_id;
            f(elem);
            let ghost after = *elem;
            proof {
                assert(self@[k] == after);
                assert(exists|x: &mut AgentTask| *x == m[k] && call_ensures(f0, (x,), ()) && *final(x) == after);
                assert forall|j: usize|
                    cur.contains_key(j) && j != k && targets.contains(j) && j < k implies exists|x: &mut AgentTask|
                        *x == m[j] && call_ensures(f0, (x,), ()) && final(x).task_id == cur[j].task_id by {
                    assert(ks@.to_set().contains(j));
                    let p = choose|p: int| 0 <= p < ks@.len() && ks@[p] == j;
                    if p >= i {
                        assert(ks@[i as int] <= ks@[p]);
                    }
                    assert(first_keys(ks@, i as int).contains(j));
                }
                assert forall|j: usize|
                    cur.contains_key(j) && j != k && !(targets.contains(j) && j < k) implies cur[j].task_id
                        == m[j].task_id by {
                    if first_keys(ks@, i as int).contains(j) {
                        let p = choose|p: int| 0 <= p < i && ks@[p] == j;
                        assert(ks@[p] < ks@[i as int]);
                        assert(ks@.to_set().contains(j));
                    }
                }
                lemma_task_step_fits(m, targets, k, cur, after, f0);
                assert(self@.insert(k, m[k]) =~= cur);
            }
            self.refile(k, orig_agent, orig_task, Ghost(cur));
            proof {
                assert(cur.insert(k, after) =~= self@);
                assert(first_keys(ks@, i + 1) =~= first_keys(ks@, i as int).insert(k));
            }
            i = i + 1;
        }
        proof {
            assert(first_keys(ks@, ks@.len() as int) =~= targets);
            assert forall|k: usize| targets.contains(k) implies exists|x: &mut AgentTask|
                *x == m[k] && call_ensures(f, (x,), ()) && *final(x) == self@[k] by {
                assert(first_keys(ks@, i as int).contains(k));
            }
            assert forall|i: int| 0 <= i < ks@.len() implies self@.contains_key(#[trigger] ks@[i]) by {
                assert(ks@.to_set().contains(ks@[i]));
            }
        }
        self.tasks_at_slots(&ks)
    }

    /// Applies `f` to every task of this agent, in slot order, then refiles
    /// the tasks whose ids changed, in slot order, and returns all of them in
    /// slot order. No refiled task may take a `task_id` that the index holds
    /// at that moment (the map panics on that), which comes to the same
    /// condition as for `modify_by_agent_id2`.
    pub fn modify_by_agent_id(&mut self, key: &u64, mut f: impl FnMut(&mut AgentTask)) -> (r: Vec<&AgentTask>)
        requires
            old(self).wf(),
            forall|k: usize, x: &mut AgentTask|
                slots_of_agent(old(self)@, *key).contains(k) && *x == old(self)@[k] ==> call_requires(
                    f,
                    (x,),
                ),
            forall|k: usize, x: &mut AgentTask|
                #[trigger] slots_of_agent(old(self)@, *key).contains(k) && *x == old(self)@[k]
                    && #[trigger] call_ensures(f, (x,), ()) ==> forall|j: usize|
                    old(self)@.contains_key(j) && j != k && !(slots_of_agent(old(self)@, *key).contains(j)
                        && j < k) ==> old(self)@[j].task_id != final(x).task_id,
            forall|k1: usize, k2: usize, x1: &mut AgentTask, x2: &mut AgentTask|
                #[trigger] slots_of_agent(old(self)@, *key).contains(k1)
                    && #[trigger] slots_of_agent(old(self)@, *key).contains(k2) && k1 < k2 && *x1
                    == old(self)@[k1] && #[trigger] call_ensures(f, (x1,), ()) && *x2 == old(self)@[k2]
                    && #[trigger] call_ensures(f, (x2,), ()) ==> final(x1).task_id != final(x2).task_id,
        ensures
            final(self).wf(),
            final(self).room() == old(self).room(),
            final(self).free_keys() == old(self).free_keys(),
            final(self)@.dom() == old(self)@.dom(),
            forall|k: usize|
                old(self)@.contains_key(k) && !slots_of_agent(old(self)@, *key).contains(k)
                    ==> final(self)@[k] == old(self)@[k],
            forall|k: usize|
                slots_of_agent(old(self)@, *key).contains(k) ==> exists|x: &mut AgentTask|
                    *x == old(self)@[k] && call_ensures(f, (x,), ()) && *final(x) == final(self)@[k],
            exists|ks: Seq<usize>|
                lists_ascending(ks, slots_of_agent(old(self)@, *key)) && tasks_at(final(self)@, ks, r@),
    {
        let ghost m = self@;
        let ghost rm0 = self.room();
        let ghost fk0 = self.free_keys();
        let ghost f0 = f;
        let ghost targets = slots_of_agent(m, *key);
        let ks = self.agent_slots(key);
        let mut mods: Vec<(usize, u64, u64, u64, u64)> = Vec::new();
        let mut i: usize = 0;
        while i < ks.len()
            invariant
                self.room() == rm0,
                self.free_keys() == fk0,
                free_keys_ok(m.dom(), fk0),
                agent_indexes_agree(self.agent_id_index@, self.task_id_index@, m),
                m.dom().finite(),
                f == f0,
                lists_ascending(ks@, targets),
                targets == slots_of_agent(m, *key),
                0 <= i <= ks@.len(),
                self@.dom() == m.dom(),
                forall|j: usize|
                    m.contains_key(j) && !first_keys(ks@, i as int).contains(j) ==> self@[j] == m[j],
                forall|j: usize|
                    first_keys(ks@, i as int).contains(j) ==> exists|x: &mut AgentTask|
                        *x == m[j] && call_ensures(f0, (x,), ()) && *final(x) == self@[j],
                forall|j: usize|
                    first_keys(ks@, i as int).contains(j) && !recorded_slots(mods@, mods@.len() as int).contains(j)
                        ==> self@[j].agent_id == m[j].agent_id && self@[j].task_id == m[j].task_id,
                forall|q: int| #![trigger mods@[q]]
                    0 <= q < mods@.len() ==> {
                        let (k, ao, to, an, tn) = mods@[q];
                        &&& first_keys(ks@, i as int).contains(k)
                        &&& ao == m[k].agent_id && to == m[k].task_id
                        &&& an == self@[k].agent_id && tn == self@[k].task_id
                    },
                forall|q1: int, q2: int| 0 <= q1 < q2 < mods@.len() ==> mods@[q1].0 < mods@[q2].0,
                forall|q: int| 0 <= q < mods@.len() ==> mods@[q].0 < ks@[i as int] || i == ks@.len(),
                forall|k: usize, x: &mut AgentTask|
                    targets.contains(k) && *x == m[k] ==> call_requires(f0, (x,)),
            decreases ks@.len() - i,
        {
            let k = ks[i];
            proof {
                assert(ks@.to_set().contains(k));
                assert(!first_keys(ks@, i as int).contains(k)) by {
                    if first_keys(ks@, i as int).contains(k) {
                        let j = choose|j: int| 0 <= j < i && ks@[j] == k;
                        assert(ks@[j] < ks@[i as int]);
                    }
                }
            }
            let ghost mods0 = mods@;
            let elem = task_slab_index_mut(&mut self.store, k);
            let agent_orig = elem.agent_id;
            let task_orig = elem.task_id;
            f(elem);
            if elem.agent_id != agent_orig || elem.task_id != task_orig {
                mods.push((k, agent_orig, task_orig, elem.agent_id, elem.task_id));
            }
            proof {
                assert(first_keys(ks@, i + 1) =~= first_keys(ks@, i as int).insert(k));
                assert forall|q: int| 0 <= q < mods@.len() implies mods@[q].0 < ks@[i + 1] || i + 1 == ks@.len() by {
                    if i + 1 < ks@.len() {
                        assert(ks@[i as int] < ks@[i + 1]);
                        if q < mods0.len() {
                            assert(mods@[q] == mods0[q]);
                        }
                    }
                }
                assert forall|j: usize|
                    first_keys(ks@, i + 1).contains(j) && !recorded_slots(mods@, mods@.len() as int).contains(j)
                        implies self@[j].agent_id == m[j].agent_id && self@[j].task_id == m[j].task_id by {
                    if j != k {
                        assert(first_keys(ks@, i as int).contains(j));
                        if recorded_slots(mods0, mods0.len() as int).contains(j) {
                            let q = choose|q: int| 0 <= q < mods0.len() && #[trigger] mods0[q].0 == j;
                            assert(mods@[q] == mods0[q]);
                        }
                    } else if mods@.len() > mods0.len() {
                        assert(mods@[mods0.len() as int].0 == k);
                    }
                }
                assert forall|q: int| #![trigger mods@[q]] 0 <= q < mods@.len() implies {
                    let (kk, ao, to, an, tn) = mods@[q];
                    &&& first_keys(ks@, i + 1).contains(kk)
                    &&& ao == m[kk].agent_id && to == m[kk].task_id
                    &&& an == self@[kk].agent_id && tn == self@[kk].task_id
                } by {
                    if q < mods0.len() {
                        assert(mods@[q] == mods0[q]);
                        assert(mods0[q].0 < k);
                    }
                }
            }
            i = i + 1;
        }
        proof {
            assert(first_keys(ks@, ks@.len() as int) =~= targets);
        }
        let ghost s1 = self@;
        let ghost mut v = m;
        let mut q: usize = 0;
        while q < mods.len()
            invariant
                self.room() == rm0,
                self.free_keys() == fk0,
                free_keys_ok(m.dom(), fk0),
                agent_indexes_agree(self.agent_id_index@, self.task_id_index@, v),
                self@ == s1,
                s1.dom() == m.dom(),
                m.dom().finite(),
                v.dom() == m.dom(),
                lists_ascending(ks@, targets),
                targets == slots_of_agent(m, *key),
                0 <= q <= mods@.len(),
                forall|j: usize| m.contains_key(j) && !targets.contains(j) ==> s1[j] == m[j],
                forall|j: usize|
                    targets.contains(j) ==> exists|x: &mut AgentTask|
                        *x == m[j] && call_ensures(f0, (x,), ()) && *final(x) == s1[j],
                forall|j: usize|
                    targets.contains(j) && !recorded_slots(mods@, mods@.len() as int).contains(j)
                        ==> s1[j].agent_id == m[j].agent_id && s1[j].task_id == m[j].task_id,
                forall|p: int| #![trigger mods@[p]]
                    0 <= p < mods@.len() ==> {
                        let (k, ao, to, an, tn) = mods@[p];
                        &&& targets.contains(k)
                        &&& ao == m[k].agent_id && to == m[k].task_id
                        &&& an == s1[k].agent_id && tn == s1[k].task_id
                    },
                forall|q1: int, q2: int| 0 <= q1 < q2 < mods@.len() ==> mods@[q1].0 < mods@[q2].0,
                forall|j: usize|
                    m.contains_key(j) ==> (if recorded_slots(mods@, q as int).contains(j) {
                        v[j] == s1[j]
                    } else {
                        v[j] == m[j]
                    }),
                forall|k: usize, x: &mut AgentTask|
                    #[trigger] targets.contains(k) && *x == m[k] && #[trigger] call_ensures(f0, (x,), ())
                        ==> forall|j: usize|
                        m.contains_key(j) && j != k && !(targets.contains(j) && j < k)
                            ==> m[j].task_id != final(x).task_id,
                forall|k1: usize, k2: usize, x1: &mut AgentTask, x2: &mut AgentTask|
                    #[trigger] targets.contains(k1) && #[trigger] targets.contains(k2) && k1 < k2 && *x1
                        == m[k1] && #[trigger] call_ensures(f0, (x1,), ()) && *x2 == m[k2]
                        && #[trigger] call_ensures(f0, (x2,), ()) ==> final(x1).task_id != final(x2).task_id,
            decreases mods@.len() - q,
        {
            let (k, ao, to, _an, _tn) = mods[q];
            proof {
                assert(mods@[q as int].0 == k);
                assert(!recorded_slots(mods@, q as int).contains(k)) by {
                    if recorded_slots(mods@, q as int).contains(k) {
                        let p = choose|p: int| 0 <= p < q && #[trigger] mods@[p].0 == k;
                        assert(mods@[p].0 < mods@[q as int].0);
                    }
                }
                assert(v[k] == m[k]);
                assert forall|j: usize|
                    v.contains_key(j) && j != k && targets.contains(j) && j < k implies exists|x: &mut AgentTask|
                        *x == m[j] && call_ensures(f0, (x,), ()) && final(x).task_id == v[j].task_id by {
                    if !recorded_slots(mods@, q as int).contains(j) {
                        if recorded_slots(mods@, mods@.len() as int).contains(j) {
                            let p = choose|p: int| 0 <= p < mods@.len() && #[trigger] mods@[p].0 == j;
                            if p >= q {
                                if p > q {
                                    assert(mods@[q as int].0 < mods@[p].0);
                                }
                            }
                            assert(recorded_slots(mods@, q as int).contains(j));
                        }
                    }
                }
                assert forall|j: usize|
                    v.contains_key(j) && j != k && !(targets.contains(j) && j < k) implies v[j].task_id
                        == m[j].task_id by {
                    if recorded_slots(mods@, q as int).contains(j) {
                        let p = choose|p: int| 0 <= p < q && #[trigger] mods@[p].0 == j;
                        assert(mods@[p].0 < mods@[q as int].0);
                    }
                }
                lemma_task_step_fits(m, targets, k, v, s1[k], f0);
            }
            self.refile(k, ao, to, Ghost(v));
            proof {
                v = v.insert(k, s1[k]);
                assert forall|j: usize| m.contains_key(j) implies (if recorded_slots(mods@, q + 1).contains(j) {
                    v[j] == s1[j]
                } else {
                    v[j] == m[j]
                }) by {
                    if j != k {
                        if recorded_slots(mods@, q + 1).contains(j) {
                            let p = choose|p: int| 0 <= p < q + 1 && #[trigger] mods@[p].0 == j;
                            assert(recorded_slots(mods@, q as int).contains(j));
                        } else {
                            assert(!recorded_slots(mods@, q as int).contains(j));
                        }
                    } else {
                        assert(recorded_slots(mods@, q + 1).contains(j));
                    }
                }
            }
            q = q + 1;
        }
        proof {
            assert forall|j: usize| #[trigger] v.contains_key(j) implies v[j].agent_id == s1[j].agent_id
                && v[j].task_id == s1[j].task_id by {
                if !recorded_slots(mods@, q as int).contains(j) {
                    if targets.contains(j) {
                        assert(!recorded_slots(mods@, mods@.len() as int).contains(j));
                    }
                }
            }
            assert(same_ids(v, s1));
            lemma_agree_same_ids(self.agent_id_index@, self.task_id_index@, v, s1);
            assert forall|i: int| 0 <= i < ks@.len() implies self@.contains_key(#[trigger] ks@[i]) by {
                assert(ks@.to_set().contains(ks@[i]));
            }
        }
        self.tasks_at_slots(&ks)
    }

    /// Whatever handles slot `k` gets, the indexes stay right.
    proof fn lemma_agree_any_handles(&self, m: Map<usize, AgentTask>, k: usize)
        requires
            agent_indexes_agree(self.agent_id_index@, self.task_id_index@, m),
            m.contains_key(k),
        ensures
            forall|o: AgentTask|
                o.agent_id == m[k].agent_id && o.task_id == m[k].task_id ==> #[trigger] agent_indexes_agree(
                    self.agent_id_index@,
                    self.task_id_index@,
                    m.insert(k, o),
                ),
    {
        assert forall|o: AgentTask|
            o.agent_id == m[k].agent_id && o.task_id == m[k].task_id implies #[trigger] agent_indexes_agree(
                self.agent_id_index@,
                self.task_id_index@,
                m.insert(k, o),
            ) by {
            let m2 = m.insert(k, o);
            assert(m2.dom() =~= m.dom());
            assert(same_ids(m, m2));
            lemma_agree_same_ids(self.agent_id_index@, self.task_id_index@, m, m2);
        }
    }

    /// Applies `f` to the three handles in slot `k`.
    fn update_task_slot<F: FnOnce(&mut AgentState, &mut ActivitySender, &mut StopSender)>(&mut self, k: usize, f: F)
        requires
            old(self).wf(),
            old(self)@.contains_key(k),
            forall|x: &mut AgentState, y: &mut ActivitySender, z: &mut StopSender|
                *x == old(self)@[k].agent_state && *y == old(self)@[k].sender && *z == old(self)@[k].stop_sender
                    ==> call_requires(f, (x, y, z)),
        ensures
            final(self).wf(),
            final(self).room() == old(self).room(),
            final(self).free_keys() == old(self).free_keys(),
            exists|x: &mut AgentState, y: &mut ActivitySender, z: &mut StopSender|
                {
                    &&& *x == old(self)@[k].agent_state
                    &&& *y == old(self)@[k].sender
                    &&& *z == old(self)@[k].stop_sender
                    &&& call_ensures(f, (x, y, z), ())
                    &&& final(self)@ == old(self)@.insert(
                        k,
                        old(self)@[k].with_handles(*final(x), *final(y), *final(z)),
                    )
                },
    {
        let ghost m = self@;
        proof {
            self.lemma_agree_any_handles(m, k);
        }
        let elem = task_slab_index_mut(&mut self.store, k);
        f(&mut elem.agent_state, &mut elem.sender, &mut elem.stop_sender);
        let ghost after = *elem;
        proof {
            assert(after == m[k].with_handles(after.agent_state, after.sender, after.stop_sender));
        }
    }

    /// Applies `f` to the handles of the task with this `task_id`, if one is
    /// stored; no index looks at the handles.
    pub fn update_by_task_id(
        &mut self,
        key: &u64,
        f: impl FnOnce(&mut AgentState, &mut ActivitySender, &mut StopSender),
    ) -> (r: Option<&AgentTask>)
        requires
            old(self).wf(),
            forall|x: &mut AgentState, y: &mut ActivitySender, z: &mut StopSender|
                slot_of_task_id(old(self)@, *key) matches Some(k) ==> (*x == old(self)@[k].agent_state && *y
                    == old(self)@[k].sender && *z == old(self)@[k].stop_sender ==> #[trigger] call_requires(
                    f,
                    (x, y, z),
                )),
        ensures
            final(self).wf(),
            final(self).room() == old(self).room(),
            final(self).free_keys() == old(self).free_keys(),
            match slot_of_task_id(old(self)@, *key) {
                Some(k) => {
                    &&& r is Some
                    &&& exists|x: &mut AgentState, y: &mut ActivitySender, z: &mut StopSender|
                        {
                            &&& *x == old(self)@[k].agent_state
                            &&& *y == old(self)@[k].sender
                            &&& *z == old(self)@[k].stop_sender
                            &&& call_ensures(f, (x, y, z), ())
                            &&& *r.unwrap() == old(self)@[k].with_handles(*final(x), *final(y), *final(z))
                        }
                    &&& final(self)@ == old(self)@.insert(k, *r.unwrap())
                },
                None => r is None && final(self)@ == old(self)@,
            },
    {
        let k = match self.task_id_index.get(key) {
            Some(k) => *k,
            None => return None,
        };
        self.update_task_slot(k, f);
        Some(task_slab_index(&self.store, k))
    }

    /// Applies `f` to the handles of every task of this agent, in slot order,
    /// and returns those tasks in slot order.
    pub fn update_by_agent_id(
        &mut self,
        key: &u64,
        mut f: impl FnMut(&mut AgentState, &mut ActivitySender, &mut StopSender),
    ) -> (r: Vec<&AgentTask>)
        requires
            old(self).wf(),
            forall|k: usize, x: &mut AgentState, y: &mut ActivitySender, z: &mut StopSender|
                slots_of_agent(old(self)@, *key).contains(k) && *x == old(self)@[k].agent_state && *y
                    == old(self)@[k].sender && *z == old(self)@[k].stop_sender ==> call_requires(f, (x, y, z)),
        ensures
            final(self).wf(),
            final(self).room() == old(self).room(),
            final(self).free_keys() == old(self).free_keys(),
            final(self)@.dom() == old(self)@.dom(),
            forall|k: usize|
                old(self)@.contains_key(k) && !slots_of_agent(old(self)@, *key).contains(k)
                    ==> final(self)@[k] == old(self)@[k],
            forall|k: usize|
                slots_of_agent(old(self)@, *key).contains(k) ==> exists|
                    x: &mut AgentState,
                    y: &mut ActivitySender,
                    z: &mut StopSender,
                |
                    {
                        &&& *x == old(self)@[k].agent_state
                        &&& *y == old(self)@[k].sender
                        &&& *z == old(self)@[k].stop_sender
                        &&& call_ensures(f, (x, y, z), ())
                        &&& final(self)@[k] == old(self)@[k].with_handles(*final(x), *final(y), *final(z))
                    },
            exists|ks: Seq<usize>|
                lists_ascending(ks, slots_of_agent(old(self)@, *key)) && tasks_at(final(self)@, ks, r@),
    {
        let ghost m = self@;
        let ghost rm0 = self.room();
        let ghost fk0 = self.free_keys();
        let ghost f0 = f;
        let ghost targets = slots_of_agent(m, *key);
        let ks = self.agent_slots(key);
        let mut i: usize = 0;
        while i < ks.len()
            invariant
                self.room() == rm0,
                self.free_keys() == fk0,
                free_keys_ok(m.dom(), fk0),
                self.wf(),
                f == f0,
                lists_ascending(ks@, targets),
                targets == slots_of_agent(m, *key),
                0 <= i <= ks@.len(),
                self@.dom() == m.dom(),
                forall|j: usize|
                    m.contains_key(j) && !first_keys(ks@, i as int).contains(j) ==> self@[j] == m[j],
                forall|j: usize|
                    first_keys(ks@, i as int).contains(j) ==> exists|
                        x: &mut AgentState,
                        y: &mut ActivitySender,
                        z: &mut StopSender,
                    |
                        {
                            &&& *x == m[j].agent_state
                            &&& *y == m[j].sender
                            &&& *z == m[j].stop_sender
                            &&& call_ensures(f, (x, y, z), ())
                            &&& self@[j] == m[j].with_handles(*final(x), *final(y), *final(z))
                        },
                forall|k: usize, x: &mut AgentState, y: &mut ActivitySender, z: &mut StopSender|
                    targets.contains(k) && *x == m[k].agent_state && *y == m[k].sender && *z
                        == m[k].stop_sender ==> call_requires(f, (x, y, z)),
            decreases ks@.len() - i,
        {
            let k = ks[i];
            proof {
                assert(ks@.to_set().contains(k));
                assert(!first_keys(ks@, i as int).contains(k)) by {
                    if first_keys(ks@, i as int).contains(k) {
                        let j = choose|j: int| 0 <= j < i && ks@[j] == k;
                        assert(ks@[j] < ks@[i as int]);
                    }
                }
            }
            let ghost cur = self@;
            proof {
                self.lemma_agree_any_handles(cur, k);
            }
            let elem = task_slab_index_mut(&mut self.store, k);
            f(&mut elem.agent_state, &mut elem.sender, &mut elem.stop_sender);
            let ghost after = *elem;
            proof {
                assert(self@[k] == after);
                assert(after == cur[k].with_handles(after.agent_state, after.sender, after.stop_sender));
                assert(first_keys(ks@, i + 1) =~= first_keys(ks@, i as int).insert(k));
                let ip1 = i + 1;
                assert forall|j: usize| #[trigger] first_keys(ks@, ip1).contains(j) implies exists|
                    x: &mut AgentState,
                    y: &mut ActivitySender,
                    z: &mut StopSender,
                |
                    {
                        &&& *x == m[j].agent_state
                        &&& *y == m[j].sender
                        &&& *z == m[j].stop_sender
                        &&& call_ensures(f, (x, y, z), ())
                        &&& self@[j] == m[j].with_handles(*final(x), *final(y), *final(z))
                    } by {
                    if j == k {
                        assert(m[k] == cur[k]);
                    } else {
                        assert(first_keys(ks@, i as int).contains(j));
                        assert(self@[j] == cur[j]);
                    }
                }
            }
            i = i + 1;
        }
        proof {
            assert(first_keys(ks@, ks@.len() as int) =~= targets);
            assert forall|k: usize| targets.contains(k) implies exists|
                x: &mut AgentState,
                y: &mut ActivitySender,
                z: &mut StopSender,
            |
                {
                    &&& *x == m[k].agent_state
                    &&& *y == m[k].sender
                    &&& *z == m[k].stop_sender
                    &&& call_ensures(f, (x, y, z), ())
                    &&& self@[k] == m[k].with_handles(*final(x), *final(y), *final(z))
                } by {
                assert(first_keys(ks@, i as int).contains(k));
            }
            assert forall|i: int| 0 <= i < ks@.len() implies self@.contains_key(#[trigger] ks@[i]) by {
                assert(ks@.to_set().contains(ks@[i]));
            }
        }
        self.tasks_at_slots(&ks)
    }

    /// Mutable borrows of the three handles of the task with this `task_id`,
    /// if one is stored; what is written through them becomes that task's
    /// handles.
    pub fn get_mut_by_task_id(&mut self, key: &u64) -> (r: Option<(&mut AgentState, &mut ActivitySender, &mut StopSender)>)
        requires
            old(self).wf(),
        ensures
            final(self).wf(),
            final(self).room() == old(self).room(),
            final(self).free_keys() == old(self).free_keys(),
            match slot_of_task_id(old(self)@, *key) {
                Some(k) => {
                    &&& r is Some
                    &&& *r.unwrap().0 == old(self)@[k].agent_state
                    &&& *r.unwrap().1 == old(self)@[k].sender
                    &&& *r.unwrap().2 == old(self)@[k].stop_sender
                    &&& final(self)@ == old(self)@.insert(
                        k,
                        old(self)@[k].with_handles(*final(r.unwrap().0), *final(r.unwrap().1), *final(r.unwrap().2)),
                    )
                },
                None => r is None && final(self)@ == old(self)@,
            },
    {
        let k = match self.task_id_index.get(key) {
            Some(k) => *k,
            None => return None,
        };
        let ghost m = self@;
        proof {
            self.lemma_agree_any_handles(m, k);
        }
        let elem = task_slab_index_mut(&mut self.store, k);
        Some((&mut elem.agent_state, &mut elem.sender, &mut elem.stop_sender))
    }

    /// Every slot with its task, by increasing key.
    pub fn iter(&self) -> (r: Vec<(usize, &AgentTask)>)
        requires
            self.wf(),
        ensures
            lists_task_entries(self@, r@),
    {
        task_slab_entries(&self.store)
    }

    /// Every task, by increasing `task_id`.
    pub fn iter_by_task_id(&self) -> (r: Vec<&AgentTask>)
        requires
            self.wf(),
        ensures
            exists|ks: Seq<usize>|
                {
                    &&& lists_each(ks, self@.dom())
                    &&& tasks_at(self@, ks, r@)
                    &&& forall|i: int, j: int|
                        0 <= i < j < ks.len() ==> self@[ks[i]].task_id < self@[ks[j]].task_id
                },
    {
        let ghost m = self@;
        let ghost tids = self.task_id_index@;
        let ghost full = self.task_id_index.iter().remaining();
        let ghost ks = full.map_values(|e: (&u64, &usize)| *e.1);
        let mut out: Vec<&AgentTask> = Vec::new();
        proof {
            assert forall|i: int| 0 <= i < ks.len() implies m.contains_key(ks[i]) by {
                assert(tids.contains_key(*full[i].0));
            }
        }
        for entry in it: self.task_id_index.iter()
            invariant
                self.wf(),
                m == self@,
                it.seq() == full,
                ks == full.map_values(|e: (&u64, &usize)| *e.1),
                forall|i: int| 0 <= i < ks.len() ==> m.contains_key(ks[i]),
                out@ == ks.take(it.index()).map_values(|k: usize| &m[k]),
        {
            let (_, k) = entry;
            proof {
                assert(full[it.index()] == entry);
                assert(ks[it.index()] == *k);
            }
            out.push(task_slab_index(&self.store, *k));
            proof {
                assert(ks.take(it.index() + 1).map_values(|k: usize| &m[k]) =~= out@);
            }
        }
        proof {
            assert(ks.take(ks.len() as int) =~= ks);
            assert forall|j: usize| m.contains_key(j) implies ks.contains(j) by {
                let id = m[j].task_id;
                assert(tids.contains_key(id));
                assert(full.contains((&id, &tids[id])));
                let i = choose|i: int| 0 <= i < full.len() && full[i] == (&id, &tids[id]);
                assert(ks[i] == j);
            }
            lemma_increasing_task_ids(full, m, tids);
            assert forall|a: int, b: int| 0 <= a < ks.len() && 0 <= b < ks.len() && a != b implies ks[a]
                != ks[b] by {
                if a < b {
                    assert(m[ks[a]].task_id < m[ks[b]].task_id);
                } else {
                    assert(m[ks[b]].task_id < m[ks[a]].task_id);
                }
            }
            assert(ks.to_set() =~= m.dom());
            assert(lists_each(ks, m.dom()));
            assert(tasks_at(m, ks, out@));
        }
        out
    }

    /// Every task, the tasks of each agent together and by slot order; the
    /// agents come in the order in which the agent index is walked.
    pub fn iter_by_agent_id(&self) -> (r: Vec<&AgentTask>)
        requires
            self.wf(),
        ensures
            exists|ks: Seq<usize>|
                {
                    &&& lists_each(ks, self@.dom())
                    &&& tasks_at(self@, ks, r@)
                    &&& grouped_by_agent(self@, ks)
                },
    {
        let ghost m = self@;
        let ghost aids = self.agent_id_index@;
        let ghost mut ks: Seq<usize> = Seq::empty();
        let mut out: Vec<&AgentTask> = Vec::new();
        let it0 = self.agent_id_index.iter();
        let ghost full = it0.remaining();
        proof {
            assert(full.no_duplicates());
        }
        for entry in it: it0
            invariant
                self.wf(),
                m == self@,
                aids == self.agent_id_index@,
                it.seq() == full,
                full.no_duplicates(),
                forall|i: int| 0 <= i < full.len() ==> aids.contains_key(*full[i].0) && aids[*full[i].0]
                    == *full[i].1,
                ks.no_duplicates(),
                forall|i: int| 0 <= i < ks.len() ==> m.contains_key(ks[i]),
                forall|k: usize|
                    ks.contains(k) <==> m.contains_key(k) && exists|q: int|
                        0 <= q < it.index() && #[trigger] *full[q].0 == m[k].agent_id,
                grouped_by_agent(m, ks),
                tasks_at(m, ks, out@),
        {
            let (a, set) = entry;
            let ghost p = it.index();
            proof {
                assert(full[p] == entry);
                assert(aids.contains_key(*a) && aids[*a] == *set);
            }
            let g = ascending_keys(set);
            let ghost n = *a;
            proof {
                assert(g@.to_set() == slots_of_agent(m, n));
                assert forall|i: int| 0 <= i < ks.len() implies m[ks[i]].agent_id != n by {
                    assert(ks.contains(ks[i]));
                    if m[ks[i]].agent_id == n {
                        let q = choose|q: int| 0 <= q < p && #[trigger] *full[q].0 == m[ks[i]].agent_id;
                        assert(full[q] == full[p]);
                    }
                }
            }
            let ghost ks0 = ks;
            let mut t: usize = 0;
            while t < g.len()
                invariant
                    self.wf(),
                    m == self@,
                    lists_ascending(g@, slots_of_agent(m, n)),
                    0 <= t <= g@.len(),
                    forall|i: int| 0 <= i < ks0.len() ==> m.contains_key(ks0[i]),
                    tasks_at(m, ks0 + g@.take(t as int), out@),
                decreases g@.len() - t,
            {
                proof {
                    assert(g@.to_set().contains(g@[t as int]));
                }
                let ghost out0 = out@;
                let o = task_slab_index(&self.store, g[t]);
                out.push(o);
                proof {
                    let kb = ks0 + g@.take(t as int);
                    let ka = ks0 + g@.take(t + 1);
                    assert(ka =~= kb.push(g@[t as int]));
                    lemma_tasks_push(m, kb, out0, g@[t as int], o);
                    assert(out@ == out0.push(o));
                }
                t = t + 1;
            }
            proof {
                ks = ks0 + g@;
                assert(g@.take(g@.len() as int) =~= g@);
                lemma_append_agent_group(m, ks0, g@, n);
                assert forall|i: int| 0 <= i < ks.len() implies m.contains_key(ks[i]) by {
                    if i >= ks0.len() {
                        assert(g@.to_set().contains(g@[i - ks0.len()]));
                    }
                }
                assert forall|j: usize|
                    ks.contains(j) <==> m.contains_key(j) && exists|q: int|
                        0 <= q < p + 1 && #[trigger] *full[q].0 == m[j].agent_id by {
                    if ks.contains(j) {
                        let i = choose|i: int| 0 <= i < ks.len() && ks[i] == j;
                        if i >= ks0.len() {
                            assert(g@[i - ks0.len()] == j);
                            assert(g@.to_set().contains(j));
                            assert(*full[p].0 == m[j].agent_id);
                        } else {
                            assert(ks0.contains(j));
                        }
                    }
                    if m.contains_key(j) && exists|q: int| 0 <= q < p + 1 && #[trigger] *full[q].0 == m[j].agent_id {
                        let q = choose|q: int| 0 <= q < p + 1 && #[trigger] *full[q].0 == m[j].agent_id;
                        if q < p {
                            assert(ks0.contains(j));
                            let i = choose|i: int| 0 <= i < ks0.len() && ks0[i] == j;
                            assert(ks[i] == j);
                        } else {
                            assert(slots_of_agent(m, n).contains(j));
                            assert(g@.to_set().contains(j));
                            let i = choose|i: int| 0 <= i < g@.len() && g@[i] == j;
                            assert(ks[ks0.len() + i] == j);
                        }
                    }
                }
            }
        }
        proof {
            assert forall|j: usize| m.contains_key(j) implies ks.contains(j) by {
                let a = m[j].agent_id;
                assert(aids.contains_key(a));
                assert(full.contains((&a, &aids[a])));
                let q = choose|q: int| 0 <= q < full.len() && full[q] == (&a, &aids[a]);
                assert(*full[q].0 == m[j].agent_id);
            }
            assert(ks.to_set() =~= m.dom());
            assert(lists_each(ks, m.dom()));
        }
        out
    }

    /// Whatever handles the tasks get, the indexes stay right.
    proof fn lemma_agree_any_handles_everywhere(&self, m: Map<usize, AgentTask>)
        requires
            agent_indexes_agree(self.agent_id_index@, self.task_id_index@, m),
        ensures
            forall|m2: Map<usize, AgentTask>|
                same_ids(m, m2) ==> #[trigger] agent_indexes_agree(self.agent_id_index@, self.task_id_index@, m2),
    {
        assert forall|m2: Map<usize, AgentTask>|
            same_ids(m, m2) implies #[trigger] agent_indexes_agree(self.agent_id_index@, self.task_id_index@, m2) by {
            lemma_agree_same_ids(self.agent_id_index@, self.task_id_index@, m, m2);
        }
    }

    /// Mutable borrows of the handles of every task, in slot order; what is
    /// written through them becomes those tasks' handles.
    pub fn iter_mut(&mut self) -> (r: Vec<(&mut AgentState, &mut ActivitySender, &mut StopSender)>)
        requires
            old(self).wf(),
        ensures
            final(self).wf(),
            final(self).room() == old(self).room(),
            final(self).free_keys() == old(self).free_keys(),
            final(self)@.dom() == old(self)@.dom(),
            exists|ks: Seq<usize>|
                {
                    &&& lists_ascending(ks, old(self)@.dom())
                    &&& r@.len() == ks.len()
                    &&& forall|i: int|
                        0 <= i < ks.len() ==> {
                            &&& *r@[i].0 == old(self)@[#[trigger] ks[i]].agent_state
                            &&& *r@[i].1 == old(self)@[ks[i]].sender
                            &&& *r@[i].2 == old(self)@[ks[i]].stop_sender
                            &&& final(self)@[ks[i]] == old(self)@[ks[i]].with_handles(
                                *final(r@[i].0),
                                *final(r@[i].1),
                                *final(r@[i].2),
                            )
                        }
                },
    {
        let ghost m = self@;
        proof {
            self.lemma_agree_any_handles_everywhere(m);
        }
        let entries = task_slab_entries_mut(&mut self.store);
        let ghost es = entries@;
        let ghost ks = es.map_values(|e: (usize, &mut AgentTask)| e.0);
        let mut out: Vec<(&mut AgentState, &mut ActivitySender, &mut StopSender)> = Vec::new();
        for e in it: entries
            invariant
                it.seq() == es,
                ks == es.map_values(|e: (usize, &mut AgentTask)| e.0),
                forall|i: int|
                    0 <= i < es.len() ==> m.contains_key(#[trigger] es[i].0) && *es[i].1 == m[es[i].0],
                out@.len() == it.index(),
                forall|i: int|
                    #![trigger es[i]]
                    0 <= i < it.index() ==> {
                        &&& *out@[i].0 == m[es[i].0].agent_state
                        &&& *out@[i].1 == m[es[i].0].sender
                        &&& *out@[i].2 == m[es[i].0].stop_sender
                        &&& *final(es[i].1) == m[es[i].0].with_handles(
                            *final(out@[i].0),
                            *final(out@[i].1),
                            *final(out@[i].2),
                        )
                    },
        {
            let ghost i = it.index();
            proof {
                assert(e == es[i]);
            }
            let (_, elem) = e;
            out.push((&mut elem.agent_state, &mut elem.sender, &mut elem.stop_sender));
        }
        proof {
            assert(lists_ascending(ks, m.dom())) by {
                assert forall|k: usize| m.contains_key(k) implies ks.contains(k) by {
                    let i = choose|i: int| 0 <= i < es.len() && #[trigger] es[i].0 == k;
                    assert(ks[i] == k);
                }
                assert(ks.to_set() =~= m.dom());
            }
        }
        out
    }

    /// Mutable borrows of the handles of this agent's tasks, in slot order;
    /// what is written through them becomes those tasks' handles.
    pub fn get_mut_by_agent_id(&mut self, key: &u64) -> (r: Vec<(&mut AgentState, &mut ActivitySender, &mut StopSender)>)
        requires
            old(self).wf(),
        ensures
            final(self).wf(),
            final(self).room() == old(self).room(),
            final(self).free_keys() == old(self).free_keys(),
            final(self)@.dom() == old(self)@.dom(),
            forall|k: usize|
                old(self)@.contains_key(k) && !slots_of_agent(old(self)@, *key).contains(k)
                    ==> final(self)@[k] == old(self)@[k],
            exists|ks: Seq<usize>|
                {
                    &&& lists_ascending(ks, slots_of_agent(old(self)@, *key))
                    &&& r@.len() == ks.len()
                    &&& forall|i: int|
                        0 <= i < ks.len() ==> {
                            &&& *r@[i].0 == old(self)@[#[trigger] ks[i]].agent_state
                            &&& *r@[i].1 == old(self)@[ks[i]].sender
                            &&& *r@[i].2 == old(self)@[ks[i]].stop_sender
                            &&& final(self)@[ks[i]] == old(self)@[ks[i]].with_handles(
                                *final(r@[i].0),
                                *final(r@[i].1),
                                *final(r@[i].2),
                            )
                        }
                },
    {
        let ghost m = self@;
        let ghost targets = slots_of_agent(m, *key);
        let ks = self.agent_slots(key);
        proof {
            self.lemma_agree_any_handles_everywhere(m);
        }
        let entries = task_slab_entries_mut(&mut self.store);
        let ghost es = entries@;
        let ghost pos = Seq::new(ks@.len(), |q: int| choose|i: int| 0 <= i < es.len() && es[i].0 == ks@[q]);
        proof {
            assert forall|q: int| 0 <= q < ks@.len() implies 0 <= #[trigger] pos[q] < es.len() && es[pos[q]].0 == ks@[q] by {
                assert(ks@.to_set().contains(ks@[q]));
                assert(m.contains_key(ks@[q]));
            }
            assert forall|q1: int, q2: int| 0 <= q1 < q2 < ks@.len() implies pos[q1] < pos[q2] by {
                assert(ks@[q1] < ks@[q2]);
                if pos[q2] <= pos[q1] {
                    if pos[q2] < pos[q1] {
                        assert(es[pos[q2]].0 < es[pos[q1]].0);
                    }
                }
            }
        }
        let mut out: Vec<(&mut AgentState, &mut ActivitySender, &mut StopSender)> = Vec::new();
        let mut p: usize = 0;
        for e in it: entries
            invariant
                it.seq() == es,
                lists_ascending(ks@, targets),
                forall|i: int, j: int| 0 <= i < j < es.len() ==> es[i].0 < es[j].0,
                forall|i: int|
                    0 <= i < es.len() ==> m.contains_key(#[trigger] es[i].0) && *es[i].1 == m[es[i].0],
                pos.len() == ks@.len(),
                forall|q: int| 0 <= q < ks@.len() ==> 0 <= #[trigger] pos[q] < es.len() && es[pos[q]].0 == ks@[q],
                forall|q1: int, q2: int| 0 <= q1 < q2 < ks@.len() ==> pos[q1] < pos[q2],
                0 <= p <= ks@.len(),
                out@.len() == p,
                forall|q: int| 0 <= q < p ==> #[trigger] pos[q] < it.index(),
                forall|q: int| p <= q < ks@.len() ==> #[trigger] pos[q] >= it.index(),
                forall|q: int|
                    0 <= q < p ==> {
                        &&& *out@[q].0 == m[#[trigger] ks@[q]].agent_state
                        &&& *out@[q].1 == m[ks@[q]].sender
                        &&& *out@[q].2 == m[ks@[q]].stop_sender
                    },
                forall|q: int|
                    0 <= q < p ==> *final(es[#[trigger] pos[q]].1) == m[ks@[q]].with_handles(
                        *final(out@[q].0),
                        *final(out@[q].1),
                        *final(out@[q].2),
                    ),
                forall|i: int|
                    #![trigger es[i]]
                    0 <= i < it.index() && !targets.contains(es[i].0) ==> *final(es[i].1) == m[es[i].0],
        {
            let ghost i = it.index();
            proof {
                assert(e == es[i]);
            }
            let (k, elem) = e;
            if p < ks.len() && ks[p] == k {
                proof {
                    assert(pos[p as int] == i) by {
                        if pos[p as int] > i {
                            assert(es[i].0 < es[pos[p as int]].0);
                        }
                    }
                }
                out.push((&mut elem.agent_state, &mut elem.sender, &mut elem.stop_sender));
                p = p + 1;
            } else {
                proof {
                    if targets.contains(k) {
                        assert(ks@.to_set().contains(k));
                        let q = choose|q: int| 0 <= q < ks@.len() && ks@[q] == k;
                        assert(es[pos[q]].0 == k);
                        if pos[q] < i {
                            assert(es[pos[q]].0 < es[i].0);
                        } else if pos[q] > i {
                            assert(es[i].0 < es[pos[q]].0);
                        }
                        assert(q >= p);
                        if q > p {
                            assert(pos[p as int] < pos[q]);
                        }
                    }
                }
            }
        }
        proof {
            assert(p == ks@.len()) by {
                if p < ks@.len() {
                    assert(pos[p as int] >= es.len());
                }
            }
            assert forall|q: int| #![trigger ks@[q]] 0 <= q < ks@.len() implies es[pos[q]].0 == ks@[q]
                && *final(es[pos[q]].1) == m[ks@[q]].with_handles(
                *final(out@[q].0),
                *final(out@[q].1),
                *final(out@[q].2),
            ) by {}
            assert forall|i: int| #![trigger es[i]] 0 <= i < es.len() implies {
                &&& final(es[i].1).agent_id == m[es[i].0].agent_id
                &&& final(es[i].1).task_id == m[es[i].0].task_id
            } by {
                if targets.contains(es[i].0) {
                    assert(ks@.to_set().contains(es[i].0));
                    let q = choose|q: int| 0 <= q < ks@.len() && ks@[q] == es[i].0;
                    if pos[q] < i {
                        assert(es[pos[q]].0 < es[i].0);
                    } else if pos[q] > i {
                        assert(es[i].0 < es[pos[q]].0);
                    }
                }
            }
        }
        out
    }

    /// The task with this `task_id`, if one is stored.
    pub fn get_by_task_id(&self, key: &u64) -> (r: Option<&AgentTask>)
        requires
            self.wf(),
        ensures
            match slot_of_task_id(self@, *key) {
                Some(k) => r is Some && *r.unwrap() == self@[k],
                None => r is None,
            },
    {
        match self.task_id_index.get(key) {
            Some(k) => Some(task_slab_index(&self.store, *k)),
            None => None,
        }
    }

    /// The tasks of this agent, in slot order.
    pub fn get_by_agent_id(&self, key: &u64) -> (r: Vec<&AgentTask>)
        requires
            self.wf(),
        ensures
            exists|ks: Seq<usize>| lists_ascending(ks, slots_of_agent(self@, *key)) && tasks_at(self@, ks, r@),
    {
        let ks = self.agent_slots(key);
        proof {
            assert forall|i: int| 0 <= i < ks@.len() implies self@.contains_key(#[trigger] ks@[i]) by {
                assert(ks@.to_set().contains(ks@[i]));
            }
        }
        self.tasks_at_slots(&ks)
    }
}

impl Default for MultiIndexAgentTaskMap {
    /// A map that stores nothing.
    fn default() -> (r: Self)
        ensures
            r.wf(),
            r@ == empty_task_slots(),
            r.free_keys() == seq![0usize],
    {
        MultiIndexAgentTaskMap {
            store: task_slab_new(),
            agent_id_index: HashMap::new(),
            task_id_index: BTreeMap::new(),
        }
    }
}

} // verus!
