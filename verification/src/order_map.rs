//! `MultiIndexOrderMap`: orders stored in a slab and found again through a
//! hashed unique index on `order_id`, an ordered unique index on `timestamp`
//! and a hashed non-unique index on `trader_name`.

use vstd::prelude::*;
use std::collections::BTreeMap;
use std::collections::BTreeSet;
use std::collections::HashMap;
use vstd::hash_map::StringHashMap;
use vstd::std_specs::iter::IteratorSpec;
use vstd::std_specs::cmp::OrdSpec;
use multi_index_map::slab::Slab;
use crate::order::Order;
use crate::order_store::order_slots;
use crate::order_store::order_free_keys;
use crate::order_store::order_room;
use crate::order_store::empty_slots;
use crate::order_store::MAX_STORED;
use crate::order_store::order_slab_new;
use crate::order_store::order_slab_with_capacity;
use crate::order_store::order_slab_capacity;
use crate::order_store::order_slab_len;
use crate::order_store::order_slab_is_empty;
use crate::order_store::order_slab_reserve;
use crate::order_store::order_slab_shrink_to_fit;
use crate::order_store::order_slab_insert;
use crate::order_store::order_slab_remove;
use crate::order_store::order_slab_get;
use crate::order_store::order_slab_index;
use crate::order_store::order_slab_index_mut;
use crate::order_store::order_slab_clear;
use crate::order_store::order_slab_entries;
use crate::order_store::order_slab_entries_mut;
use crate::order_store::order_slab_clone;
use crate::keys::lists_ascending;
use crate::keys::first_keys;
use crate::keys::ascending_keys;
use crate::keys::after_insert;
use crate::keys::free_keys_ok;
use crate::keys::ends_vacant;
use crate::keys::rebuilt_free_keys;
use crate::keys::lemma_free_after_insert;
use crate::keys::lemma_free_after_remove;
use crate::keys::lemma_free_after_shrink;
use crate::errors::UniquenessError;
use crate::outside::hash_map_shrink_to_fit;

verus! {

broadcast use {
    vstd::std_specs::hash::group_hash_axioms,
    vstd::std_specs::btree::group_btree_axioms,
    vstd::hash_map::group_hash_map_axioms,
};

// ---------------------------------------------------------------------------
// The model: a map from slot keys to orders.
// ---------------------------------------------------------------------------

/// Some stored order has this `order_id`.
pub open spec fn holds_order_id(m: Map<usize, Order>, id: u32) -> bool {
    exists|k: usize| m.contains_key(k) && m[k].order_id == id
}

/// The slot of the order with this `order_id`, if there is one.
pub open spec fn slot_of_order_id(m: Map<usize, Order>, id: u32) -> Option<usize> {
    if holds_order_id(m, id) {
        Some(choose|k: usize| m.contains_key(k) && m[k].order_id == id)
    } else {
        None
    }
}

/// Some stored order has this `timestamp`.
pub open spec fn holds_timestamp(m: Map<usize, Order>, ts: u64) -> bool {
    exists|k: usize| m.contains_key(k) && m[k].timestamp == ts
}

/// The slot of the order with this `timestamp`, if there is one.
pub open spec fn slot_of_timestamp(m: Map<usize, Order>, ts: u64) -> Option<usize> {
    if holds_timestamp(m, ts) {
        Some(choose|k: usize| m.contains_key(k) && m[k].timestamp == ts)
    } else {
        None
    }
}

/// The slots whose order belongs to this trader.
pub open spec fn slots_of_trader(m: Map<usize, Order>, name: Seq<char>) -> Set<usize> {
    m.dom().filter(|k: usize| m[k].trader_name@ == name)
}

/// No two stored orders share an `order_id` or a `timestamp`.
pub open spec fn unique_fields(m: Map<usize, Order>) -> bool {
    forall|k1: usize, k2: usize|
        m.contains_key(k1) && m.contains_key(k2) && (m[k1].order_id == m[k2].order_id
            || m[k1].timestamp == m[k2].timestamp) ==> k1 == k2
}

/// Inserting `e` would break a uniqueness constraint.
pub open spec fn clashes(m: Map<usize, Order>, e: Order) -> bool {
    holds_order_id(m, e.order_id) || holds_timestamp(m, e.timestamp)
}

/// `e` may stand in slot `k`: no order in another slot has its `order_id`
/// or its `timestamp`.
pub open spec fn fits_at(m: Map<usize, Order>, k: usize, e: Order) -> bool {
    forall|j: usize|
        m.contains_key(j) && j != k ==> m[j].order_id != e.order_id && m[j].timestamp
            != e.timestamp
}

/// `refs` are the orders of `m` at the slots `ks`, in that order.
pub open spec fn orders_at(m: Map<usize, Order>, ks: Seq<usize>, refs: Seq<&Order>) -> bool {
    &&& refs.len() == ks.len()
    &&& forall|i: int| #![trigger ks[i]] #![trigger refs[i]]
        0 <= i < ks.len() ==> m.contains_key(ks[i]) && *refs[i] == m[ks[i]]
}

/// The slots of one trader are finitely many when the map's are.
pub proof fn lemma_trader_slots_finite(m: Map<usize, Order>, name: Seq<char>)
    requires
        m.dom().finite(),
    ensures
        slots_of_trader(m, name).finite(),
{
    m.dom().lemma_len_filter(|k: usize| m[k].trader_name@ == name);
}

/// The three indexes file exactly the orders of `m`.
spec fn indexes_agree(
    ids: Map<u32, usize>,
    tss: Map<u64, usize>,
    names: Map<Seq<char>, BTreeSet<usize>>,
    m: Map<usize, Order>,
) -> bool {
    &&& forall|id: u32| #[trigger]
        ids.contains_key(id) ==> m.contains_key(ids[id]) && m[ids[id]].order_id == id
    &&& forall|k: usize| #[trigger]
        m.contains_key(k) ==> ids.contains_key(m[k].order_id) && ids[m[k].order_id] == k
    &&& forall|ts: u64| #[trigger]
        tss.contains_key(ts) ==> m.contains_key(tss[ts]) && m[tss[ts]].timestamp == ts
    &&& forall|k: usize| #[trigger]
        m.contains_key(k) ==> tss.contains_key(m[k].timestamp) && tss[m[k].timestamp] == k
    &&& forall|name: Seq<char>| #[trigger]
        names.contains_key(name) ==> names[name]@ == slots_of_trader(m, name) && names[name]@
            != Set::<usize>::empty()
    &&& forall|k: usize| #[trigger] m.contains_key(k) ==> names.contains_key(m[k].trader_name@)
}

/// `m2` holds the same slots as `m1`, with the same indexed fields.
pub open spec fn same_indexed_fields(m1: Map<usize, Order>, m2: Map<usize, Order>) -> bool {
    &&& m1.dom() == m2.dom()
    &&& forall|k: usize|
        #[trigger] m1.contains_key(k) ==> m1[k].order_id == m2[k].order_id && m1[k].timestamp
            == m2[k].timestamp && m1[k].trader_name@ == m2[k].trader_name@
}

/// `ks` lists every key of `s` exactly once, in some order.
pub open spec fn lists_all(ks: Seq<usize>, s: Set<usize>) -> bool {
    &&& ks.to_set() == s
    &&& ks.no_duplicates()
}

/// In `ks` the orders of each trader stand together, by increasing key.
pub open spec fn grouped_by_trader(m: Map<usize, Order>, ks: Seq<usize>) -> bool {
    &&& forall|i: int, j: int, l: int|
        0 <= i < j < l < ks.len() && m[ks[i]].trader_name@ == m[ks[l]].trader_name@
            ==> m[ks[j]].trader_name@ == m[ks[i]].trader_name@
    &&& forall|i: int, j: int|
        0 <= i < j < ks.len() && m[ks[i]].trader_name@ == m[ks[j]].trader_name@ ==> ks[i] < ks[j]
}

/// Slot `k` has the smallest key among its trader's orders.
pub open spec fn first_of_trader(m: Map<usize, Order>, k: usize) -> bool {
    forall|j: usize| #[trigger] m.contains_key(j) && m[j].trader_name@ == m[k].trader_name@ ==> k <= j
}

/// `v` lists every slot of `m` with its order, by increasing key.
pub open spec fn lists_entries(m: Map<usize, Order>, v: Seq<(usize, &Order)>) -> bool {
    &&& forall|i: int, j: int| 0 <= i < j < v.len() ==> v[i].0 < v[j].0
    &&& forall|i: int| 0 <= i < v.len() ==> m.contains_key(#[trigger] v[i].0) && *v[i].1 == m[v[i].0]
    &&& forall|k: usize| m.contains_key(k) ==> exists|i: int| 0 <= i < v.len() && #[trigger] v[i].0 == k
}

/// Walking the timestamp index meets strictly increasing timestamps.
proof fn lemma_increasing_timestamps(full: Seq<(&u64, &usize)>, m: Map<usize, Order>, tss: Map<u64, usize>)
    requires
        vstd::std_specs::btree::increasing_seq(full.map_values(|kv: (&u64, &usize)| *kv.0)),
        forall|i: int|
            0 <= i < full.len() ==> tss.contains_key(#[trigger] *full[i].0) && tss[*full[i].0] == *full[i].1,
        forall|ts: u64| #[trigger]
            tss.contains_key(ts) ==> m.contains_key(tss[ts]) && m[tss[ts]].timestamp == ts,
    ensures
        forall|i: int, j: int|
            0 <= i < j < full.len() ==> m[*full[i].1].timestamp < m[*full[j].1].timestamp,
{
    broadcast use vstd::laws_cmp::group_laws_cmp;

    let keys = full.map_values(|kv: (&u64, &usize)| *kv.0);
    assert(vstd::laws_cmp::obeys_cmp::<u64>());
    assert forall|i: int, j: int| 0 <= i < j < full.len() implies m[*full[i].1].timestamp
        < m[*full[j].1].timestamp by {
        assert(OrdSpec::cmp_spec(&keys[i], &keys[j]) is Less);
        assert(tss.contains_key(*full[i].0));
        assert(tss.contains_key(*full[j].0));
    }
}

/// In a run of `f` over `targets` in ascending slot order, the order that the
/// step at position `i` produces clashes with no other order present at that
/// moment, given the two exclusions that the caller promised.
proof fn lemma_step_fits<F: FnMut(&mut Order)>(
    m: Map<usize, Order>,
    targets: Set<usize>,
    ks: Seq<usize>,
    i: int,
    cur: Map<usize, Order>,
    after: Order,
    f: F,
)
    requires
        lists_ascending(ks, targets),
        0 <= i < ks.len(),
        cur.dom() == m.dom(),
        forall|j: usize| m.contains_key(j) && !first_keys(ks, i).contains(j) ==> cur[j] == m[j],
        forall|j: usize|
            first_keys(ks, i).contains(j) ==> exists|x: &mut Order|
                *x == m[j] && call_ensures(f, (x,), ()) && *final(x) == cur[j],
        exists|x: &mut Order| *x == m[ks[i]] && call_ensures(f, (x,), ()) && *final(x) == after,
        forall|k: usize, x: &mut Order|
            #[trigger] targets.contains(k) && *x == m[k] && #[trigger] call_ensures(f, (x,), ())
                ==> forall|j: usize|
                m.contains_key(j) && j != k && !(targets.contains(j) && j < k) ==> m[j].order_id
                    != final(x).order_id && m[j].timestamp != final(x).timestamp,
        forall|k1: usize, k2: usize, x1: &mut Order, x2: &mut Order|
            #[trigger] targets.contains(k1) && #[trigger] targets.contains(k2) && k1 < k2 && *x1 == m[k1]
                && #[trigger] call_ensures(f, (x1,), ()) && *x2 == m[k2] && #[trigger] call_ensures(
                f,
                (x2,),
                (),
            ) ==> final(x1).order_id != final(x2).order_id && final(x1).timestamp != final(x2).timestamp,
    ensures
        forall|j: usize|
            cur.contains_key(j) && j != ks[i] ==> cur[j].order_id != after.order_id && cur[j].timestamp
                != after.timestamp,
{
    let k = ks[i];
    let x2 = choose|x: &mut Order| *x == m[k] && call_ensures(f, (x,), ()) && *final(x) == after;
    assert(ks.to_set().contains(k));
    assert forall|j: usize| cur.contains_key(j) && j != k implies cur[j].order_id != after.order_id
        && cur[j].timestamp != after.timestamp by {
        if first_keys(ks, i).contains(j) {
            let x1 = choose|x: &mut Order| *x == m[j] && call_ensures(f, (x,), ()) && *final(x) == cur[j];
            let p = choose|p: int| 0 <= p < i && ks[p] == j;
            assert(ks[p] < ks[i]);
            assert(ks.to_set().contains(j));
            assert(targets.contains(j) && targets.contains(k));
        } else {
            if targets.contains(j) && j < k {
                assert(ks.to_set().contains(j));
                let p = choose|p: int| 0 <= p < ks.len() && ks[p] == j;
                if p >= i {
                    assert(ks[i] <= ks[p]);
                }
            }
            assert(targets.contains(k));
        }
    }
}

/// Listing one more slot and its order keeps the listing right.
proof fn lemma_orders_push(m: Map<usize, Order>, ks: Seq<usize>, refs: Seq<&Order>, k: usize, o: &Order)
    requires
        orders_at(m, ks, refs),
        m.contains_key(k),
        *o == m[k],
    ensures
        orders_at(m, ks.push(k), refs.push(o)),
{
    let ka = ks.push(k);
    let ra = refs.push(o);
    assert forall|q: int| #![trigger ka[q]] 0 <= q < ka.len() implies m.contains_key(ka[q]) && *ra[q] == m[ka[q]] by {
        if q < ks.len() {
            assert(ka[q] == ks[q]);
            assert(ra[q] == refs[q]);
        }
    }
}

/// Appending the slots of a trader not yet listed keeps each trader's
/// orders together and every slot listed once.
proof fn lemma_append_group(m: Map<usize, Order>, ks0: Seq<usize>, g: Seq<usize>, n: Seq<char>)
    requires
        ks0.no_duplicates(),
        grouped_by_trader(m, ks0),
        forall|i: int| 0 <= i < ks0.len() ==> m[ks0[i]].trader_name@ != n,
        lists_ascending(g, slots_of_trader(m, n)),
    ensures
        (ks0 + g).no_duplicates(),
        grouped_by_trader(m, ks0 + g),
{
    let ks = ks0 + g;
    assert forall|i: int| 0 <= i < g.len() implies m[g[i]].trader_name@ == n by {
        assert(g.to_set().contains(g[i]));
    }
    assert forall|a: int, b: int| 0 <= a < ks.len() && 0 <= b < ks.len() && a != b implies ks[a] != ks[b] by {
        if a < ks0.len() && b >= ks0.len() {
            assert(m[ks[b]].trader_name@ == n);
        } else if b < ks0.len() && a >= ks0.len() {
            assert(m[ks[a]].trader_name@ == n);
        } else if a >= ks0.len() && b >= ks0.len() {
            if a < b {
                assert(g[a - ks0.len()] < g[b - ks0.len()]);
            } else {
                assert(g[b - ks0.len()] < g[a - ks0.len()]);
            }
        }
    }
    assert forall|i: int, j: int, l: int|
        0 <= i < j < l < ks.len() && m[ks[i]].trader_name@ == m[ks[l]].trader_name@ implies m[ks[j]].trader_name@
        == m[ks[i]].trader_name@ by {
        if l < ks0.len() {
        } else if i >= ks0.len() {
            assert(m[ks[j]].trader_name@ == n);
        } else {
            assert(m[ks[l]].trader_name@ == n);
        }
    }
    assert forall|i: int, j: int|
        0 <= i < j < ks.len() && m[ks[i]].trader_name@ == m[ks[j]].trader_name@ implies ks[i] < ks[j] by {
        if j < ks0.len() {
        } else if i >= ks0.len() {
            assert(g[i - ks0.len()] < g[j - ks0.len()]);
        } else {
            assert(m[ks[j]].trader_name@ == n);
        }
    }
}

/// Every trader with an order has a slot that is first among its orders.
proof fn lemma_trader_has_first(m: Map<usize, Order>, k: usize) -> (first: usize)
    requires
        m.dom().finite(),
        m.contains_key(k),
    ensures
        m.contains_key(first),
        m[first].trader_name@ == m[k].trader_name@,
        first_of_trader(m, first),
    decreases k,
{
    if first_of_trader(m, k) {
        k
    } else {
        let j = choose|j: usize| #[trigger] m.contains_key(j) && m[j].trader_name@ == m[k].trader_name@ && !(k <= j);
        lemma_trader_has_first(m, j)
    }
}

// ---------------------------------------------------------------------------
// Laws: what a lookup finds after a store, a removal or a change.
// ---------------------------------------------------------------------------

/// With unique fields, the order with `order_id` `id` is in slot `k` exactly
/// when slot `k` holds an order with that id.
proof fn lemma_slot_of_order_id(m: Map<usize, Order>, id: u32, k: usize)
    requires
        unique_fields(m),
        m.contains_key(k),
        m[k].order_id == id,
    ensures
        slot_of_order_id(m, id) == Some(k),
{
    let j = choose|j: usize| m.contains_key(j) && m[j].order_id == id;
}

/// With unique fields, the order with `timestamp` `ts` is in slot `k` exactly
/// when slot `k` holds an order with that timestamp.
proof fn lemma_slot_of_timestamp(m: Map<usize, Order>, ts: u64, k: usize)
    requires
        unique_fields(m),
        m.contains_key(k),
        m[k].timestamp == ts,
    ensures
        slot_of_timestamp(m, ts) == Some(k),
{
    let j = choose|j: usize| m.contains_key(j) && m[j].timestamp == ts;
}

/// Storing an order that clashes with none in a free slot `k` keeps the
/// fields unique; a lookup by its `order_id` or its `timestamp` then finds
/// slot `k`, its trader's slots gain `k`, and every other `order_id` and
/// `timestamp` is found where it was.
pub proof fn law_found_after_insert(m: Map<usize, Order>, k: usize, e: Order)
    requires
        unique_fields(m),
        !m.contains_key(k),
        !clashes(m, e),
    ensures
        unique_fields(m.insert(k, e)),
        slot_of_order_id(m.insert(k, e), e.order_id) == Some(k),
        slot_of_timestamp(m.insert(k, e), e.timestamp) == Some(k),
        slots_of_trader(m.insert(k, e), e.trader_name@) == slots_of_trader(m, e.trader_name@).insert(k),
        forall|id: u32|
            id != e.order_id ==> #[trigger] slot_of_order_id(m.insert(k, e), id) == slot_of_order_id(m, id),
        forall|ts: u64|
            ts != e.timestamp ==> #[trigger] slot_of_timestamp(m.insert(k, e), ts) == slot_of_timestamp(
                m,
                ts,
            ),
{
    let m2 = m.insert(k, e);
    assert(unique_fields(m2)) by {
        assert forall|k1: usize, k2: usize|
            m2.contains_key(k1) && m2.contains_key(k2) && (m2[k1].order_id == m2[k2].order_id
                || m2[k1].timestamp == m2[k2].timestamp) implies k1 == k2 by {
            if k1 != k && k2 == k {
                assert(m.contains_key(k1));
            } else if k1 == k && k2 != k {
                assert(m.contains_key(k2));
            }
        }
    }
    lemma_slot_of_order_id(m2, e.order_id, k);
    lemma_slot_of_timestamp(m2, e.timestamp, k);
    assert(slots_of_trader(m2, e.trader_name@) =~= slots_of_trader(m, e.trader_name@).insert(k));
    assert forall|id: u32| id != e.order_id implies #[trigger] slot_of_order_id(m2, id) == slot_of_order_id(
        m,
        id,
    ) by {
        if holds_order_id(m, id) {
            let j = choose|j: usize| m.contains_key(j) && m[j].order_id == id;
            lemma_slot_of_order_id(m, id, j);
            lemma_slot_of_order_id(m2, id, j);
        } else {
            assert(!holds_order_id(m2, id));
        }
    }
    assert forall|ts: u64| ts != e.timestamp implies #[trigger] slot_of_timestamp(m2, ts) == slot_of_timestamp(
        m,
        ts,
    ) by {
        if holds_timestamp(m, ts) {
            let j = choose|j: usize| m.contains_key(j) && m[j].timestamp == ts;
            lemma_slot_of_timestamp(m, ts, j);
            lemma_slot_of_timestamp(m2, ts, j);
        } else {
            assert(!holds_timestamp(m2, ts));
        }
    }
}

/// Removing by `order_id` right after a store that did not clash takes out
/// the slot the order went to, hands back that order, and leaves the map as
/// it was before the store; the same holds for a removal by `timestamp`.
pub proof fn law_remove_undoes_insert(m: Map<usize, Order>, k: usize, e: Order)
    requires
        unique_fields(m),
        !m.contains_key(k),
        !clashes(m, e),
    ensures
        slot_of_order_id(m.insert(k, e), e.order_id) == Some(k),
        slot_of_timestamp(m.insert(k, e), e.timestamp) == Some(k),
        m.insert(k, e)[k] == e,
        m.insert(k, e).remove(k) == m,
{
    law_found_after_insert(m, k, e);
    assert(m.insert(k, e).remove(k) =~= m);
}

/// After the order in slot `k` is changed to `o`, which clashes with no other
/// order, the fields stay unique; `o` is found under its `order_id`, its
/// `timestamp` and its trader, and no longer under the ids it gave up.
pub proof fn law_found_after_change(m: Map<usize, Order>, k: usize, o: Order)
    requires
        unique_fields(m),
        m.contains_key(k),
        fits_at(m, k, o),
    ensures
        unique_fields(m.insert(k, o)),
        slot_of_order_id(m.insert(k, o), o.order_id) == Some(k),
        slot_of_timestamp(m.insert(k, o), o.timestamp) == Some(k),
        slots_of_trader(m.insert(k, o), o.trader_name@).contains(k),
        o.order_id != m[k].order_id ==> slot_of_order_id(m.insert(k, o), m[k].order_id) is None,
        o.timestamp != m[k].timestamp ==> slot_of_timestamp(m.insert(k, o), m[k].timestamp) is None,
        o.trader_name@ != m[k].trader_name@ ==> !slots_of_trader(m.insert(k, o), m[k].trader_name@).contains(k),
{
    let m2 = m.insert(k, o);
    assert(unique_fields(m2)) by {
        assert forall|k1: usize, k2: usize|
            m2.contains_key(k1) && m2.contains_key(k2) && (m2[k1].order_id == m2[k2].order_id
                || m2[k1].timestamp == m2[k2].timestamp) implies k1 == k2 by {
            if k1 != k && k2 == k {
                assert(m.contains_key(k1));
            } else if k1 == k && k2 != k {
                assert(m.contains_key(k2));
            } else if k1 != k && k2 != k {
                assert(m.contains_key(k1) && m.contains_key(k2));
            }
        }
    }
    lemma_slot_of_order_id(m2, o.order_id, k);
    lemma_slot_of_timestamp(m2, o.timestamp, k);
    if o.order_id != m[k].order_id {
        assert(!holds_order_id(m2, m[k].order_id)) by {
            if holds_order_id(m2, m[k].order_id) {
                let j = choose|j: usize| m2.contains_key(j) && m2[j].order_id == m[k].order_id;
                assert(j != k);
                assert(m.contains_key(j));
            }
        }
    }
    if o.timestamp != m[k].timestamp {
        assert(!holds_timestamp(m2, m[k].timestamp)) by {
            if holds_timestamp(m2, m[k].timestamp) {
                let j = choose|j: usize| m2.contains_key(j) && m2[j].timestamp == m[k].timestamp;
                assert(j != k);
                assert(m.contains_key(j));
            }
        }
    }
}

/// With no slot vacant (the free keys are only the end of the entry
/// vector), a store takes a slot past every stored order, so the store's
/// trader, listed in slot order, gains the new order at the end: orders
/// stored one after another come back in that order.
pub proof fn law_insert_goes_last(m: Map<usize, Order>, f: Seq<usize>, e: Order, ks: Seq<usize>)
    requires
        free_keys_ok(m.dom(), f),
        f.len() == 1,
        lists_ascending(ks, slots_of_trader(m, e.trader_name@)),
    ensures
        forall|k: usize| m.contains_key(k) ==> k < f[0],
        lists_ascending(ks.push(f[0]), slots_of_trader(m.insert(f[0], e), e.trader_name@)),
{
    let k = f[0];
    let ks2 = ks.push(k);
    assert forall|i: int| 0 <= i < ks.len() implies ks[i] < k by {
        assert(ks.to_set().contains(ks[i]));
    }
    assert(ks2.to_set() =~= slots_of_trader(m.insert(k, e), e.trader_name@)) by {
        assert forall|j: usize| ks2.to_set().contains(j) implies slots_of_trader(m.insert(k, e), e.trader_name@).contains(j) by {
            if j != k {
                let i = choose|i: int| 0 <= i < ks2.len() && ks2[i] == j;
                assert(ks[i] == j);
                assert(ks.to_set().contains(j));
            }
        }
        assert forall|j: usize| slots_of_trader(m.insert(k, e), e.trader_name@).contains(j) implies ks2.to_set().contains(j) by {
            if j == k {
                assert(ks2[ks.len() as int] == k);
            } else {
                assert(slots_of_trader(m, e.trader_name@).contains(j));
                assert(ks.to_set().contains(j));
                let i = choose|i: int| 0 <= i < ks.len() && ks[i] == j;
                assert(ks2[i] == j);
            }
        }
    }
}

// ---------------------------------------------------------------------------
// The trader-name index.
// ---------------------------------------------------------------------------

/// The slots filed under `name` before a change, or none.
pub open spec fn filed_under(idx: Map<Seq<char>, BTreeSet<usize>>, name: Seq<char>) -> Set<usize> {
    if idx.contains_key(name) {
        idx[name]@
    } else {
        Set::empty()
    }
}

/// Files slot `k` under `name`.
fn trader_add(idx: &mut StringHashMap<BTreeSet<usize>>, name: &String, k: usize)
    ensures
        final(idx)@.dom() == old(idx)@.dom().insert(name@),
        final(idx)@[name@]@ == filed_under(old(idx)@, name@).insert(k),
        forall|n: Seq<char>|
            n != name@ && old(idx)@.contains_key(n) ==> #[trigger] final(idx)@[n] == old(idx)@[n],
{
    let mut set: BTreeSet<usize> = match idx.get(name.as_str()) {
        Some(s) => s.clone(),
        None => BTreeSet::new(),
    };
    set.insert(k);
    idx.insert(name.clone(), set);
}

/// Takes slot `k` out of the slots filed under `name`, and drops the name
/// when `k` was its last slot.
fn trader_drop(idx: &mut StringHashMap<BTreeSet<usize>>, name: &String, k: usize)
    requires
        old(idx)@.contains_key(name@),
        old(idx)@[name@]@.contains(k),
        old(idx)@[name@]@.finite(),
    ensures
        final(idx)@.remove(name@) == old(idx)@.remove(name@),
        old(idx)@[name@]@.remove(k) == Set::<usize>::empty() ==> !final(idx)@.contains_key(name@),
        old(idx)@[name@]@.remove(k) != Set::<usize>::empty() ==> final(idx)@.contains_key(name@)
            && final(idx)@[name@]@ == old(idx)@[name@]@.remove(k),
{
    let cur: BTreeSet<usize> = match idx.get(name.as_str()) {
        Some(s) => s.clone(),
        None => BTreeSet::new(),
    };
    if cur.len() > 1 {
        let mut rest = cur;
        rest.remove(&k);
        idx.insert(name.clone(), rest);
    } else {
        proof {
            assert(cur@.remove(k).len() == 0);
            assert(cur@.remove(k) =~= Set::<usize>::empty());
        }
        idx.remove(name.as_str());
    }
}

/// The slots among the first `p` listed entries whose order belongs to
/// this trader.
pub open spec fn listed_slots_of_trader(
    m: Map<usize, Order>,
    es: Seq<(usize, &Order)>,
    p: int,
    name: Seq<char>,
) -> Set<usize> {
    Set::new(|k: usize| exists|q: int| 0 <= q < p && #[trigger] es[q].0 == k && m[k].trader_name@ == name)
}

// ---------------------------------------------------------------------------
// The map.
// ---------------------------------------------------------------------------

/// Orders in a slab, indexed three ways.
pub struct MultiIndexOrderMap {
    store: Slab<Order>,
    order_id_index: HashMap<u32, usize>,
    timestamp_index: BTreeMap<u64, usize>,
    trader_name_index: StringHashMap<BTreeSet<usize>>,
}

impl View for MultiIndexOrderMap {
    type V = Map<usize, Order>;

    /// The stored orders by slot key.
    closed spec fn view(&self) -> Map<usize, Order> {
        order_slots(self.store)
    }
}

impl MultiIndexOrderMap {
    /// The indexes file exactly the orders of `m`.
    closed spec fn indexes_match(&self, m: Map<usize, Order>) -> bool {
        indexes_agree(self.order_id_index@, self.timestamp_index@, self.trader_name_index@, m)
    }

    /// Every index agrees with the store, and the store's vacancy list is
    /// well formed.
    pub closed spec fn wf(&self) -> bool {
        &&& order_slots(self.store).dom().finite()
        &&& self.indexes_match(order_slots(self.store))
        &&& free_keys_ok(order_slots(self.store).dom(), order_free_keys(self.store))
    }

    /// How many elements the store's entry vector has room for, as
    /// `capacity` reports it.
    pub closed spec fn room(&self) -> nat {
        order_room(self.store)
    }

    /// The slots that the next stores take, in that order: the store's
    /// vacant slots as its vacancy list links them, then the end of its entry
    /// vector.
    pub closed spec fn free_keys(&self) -> Seq<usize> {
        order_free_keys(self.store)
    }

    /// A well formed map holds finitely many orders, and its free slots are
    /// vacant, distinct, and end past every stored order.
    pub proof fn lemma_store_facts(&self)
        requires
            self.wf(),
        ensures
            self@.dom().finite(),
            free_keys_ok(self@.dom(), self.free_keys()),
    {
    }

    /// No two stored orders share an `order_id` or a `timestamp`.
    pub proof fn law_fields_unique(&self)
        requires
            self.wf(),
        ensures
            unique_fields(self@),
    {
        let m = self@;
        assert forall|k1: usize, k2: usize|
            m.contains_key(k1) && m.contains_key(k2) && (m[k1].order_id == m[k2].order_id
                || m[k1].timestamp == m[k2].timestamp) implies k1 == k2 by {
            assert(self.order_id_index@[m[k1].order_id] == k1);
            assert(self.order_id_index@[m[k2].order_id] == k2);
            assert(self.timestamp_index@[m[k1].timestamp] == k1);
            assert(self.timestamp_index@[m[k2].timestamp] == k2);
        }
    }

    /// A map that stores nothing, with room for `n` orders in its slab.
    pub fn with_capacity(n: usize) -> (r: Self)
        requires
            n <= MAX_STORED,
        ensures
            r.wf(),
            r.room() >= n,
            r@ == empty_slots(),
            r.free_keys() == seq![0usize],
    {
        MultiIndexOrderMap {
            store: order_slab_with_capacity(n),
            order_id_index: HashMap::new(),
            timestamp_index: BTreeMap::new(),
            trader_name_index: StringHashMap::new(),
        }
    }

    /// The slab's allocated room: at least the number of stored orders.
    pub fn capacity(&self) -> (c: usize)
        requires
            self.wf(),
        ensures
            c == self.room(),
            c >= self@.len(),
    {
        order_slab_capacity(&self.store)
    }

    /// The number of stored orders.
    pub fn len(&self) -> (n: usize)
        requires
            self.wf(),
        ensures
            n == self@.len(),
    {
        order_slab_len(&self.store)
    }

    /// Whether no order is stored.
    pub fn is_empty(&self) -> (b: bool)
        requires
            self.wf(),
        ensures
            b == (self@ == empty_slots()),
    {
        let b = order_slab_is_empty(&self.store);
        proof {
            if b {
                assert(self@ =~= empty_slots());
            } else {
                assert(self@.dom() != empty_slots().dom());
            }
        }
        b
    }

    /// Makes room for `additional` more orders; the contents stay as they are.
    pub fn reserve(&mut self, additional: usize)
        requires
            old(self).wf(),
            old(self)@.len() + additional <= MAX_STORED,
        ensures
            final(self).wf(),
            final(self).room() >= old(self)@.len() + additional,
            final(self).free_keys() == old(self).free_keys(),
            final(self)@ == old(self)@,
    {
        order_slab_reserve(&mut self.store, additional);
        self.order_id_index.reserve(additional);
        self.trader_name_index.reserve(additional);
    }

    /// Gives back spare room; the contents stay as they are. When the store
    /// ends in vacant slots it drops them, and the free slots are then listed
    /// afresh in increasing order.
    pub fn shrink_to_fit(&mut self)
        requires
            old(self).wf(),
        ensures
            final(self).wf(),
            final(self).room() >= old(self)@.len(),
            !ends_vacant(old(self)@.dom(), old(self).free_keys()) ==> final(self).free_keys()
                == old(self).free_keys(),
            ends_vacant(old(self)@.dom(), old(self).free_keys()) ==> rebuilt_free_keys(
                old(self)@.dom(),
                final(self).free_keys(),
            ),
            final(self)@ == old(self)@,
    {
        let ghost f = order_free_keys(self.store);
        order_slab_shrink_to_fit(&mut self.store);
        proof {
            lemma_free_after_shrink(self@.dom(), f, order_free_keys(self.store));
        }
        hash_map_shrink_to_fit(&mut self.order_id_index);
    }

    /// Removes every order.
    pub fn clear(&mut self)
        requires
            old(self).wf(),
        ensures
            final(self).wf(),
            final(self).room() == old(self).room(),
            final(self).free_keys() == seq![0usize],
            final(self)@ == empty_slots(),
    {
        order_slab_clear(&mut self.store);
        self.order_id_index.clear();
        self.timestamp_index.clear();
        self.trader_name_index.clear();
    }

    /// Stores `elem` in the first free slot, unless its `order_id` or its
    /// `timestamp` is taken; then the map is left as it was and `elem` comes
    /// back in the error.
    pub fn try_insert(&mut self, elem: Order) -> (r: Result<&Order, UniquenessError<Order>>)
        requires
            old(self).wf(),
            old(self)@.len() < MAX_STORED,
        ensures
            final(self).wf(),
            final(self).room() >= old(self).room(),
            match r {
                Ok(o) => {
                    &&& !clashes(old(self)@, elem)
                    &&& *o == elem
                    &&& !old(self)@.contains_key(old(self).free_keys()[0])
                    &&& final(self)@ == old(self)@.insert(old(self).free_keys()[0], elem)
                    &&& final(self).free_keys() == after_insert(old(self).free_keys())
                },
                Err(e) => {
                    &&& clashes(old(self)@, elem)
                    &&& e.0 == elem
                    &&& final(self)@ == old(self)@
                    &&& final(self).free_keys() == old(self).free_keys()
                },
            },
    {
        let ghost m = self@;
        if self.order_id_index.contains_key(&elem.order_id) {
            assert(m.contains_key(self.order_id_index@[elem.order_id]));
            return Err(UniquenessError(elem));
        }
        if self.timestamp_index.contains_key(&elem.timestamp) {
            assert(m.contains_key(self.timestamp_index@[elem.timestamp]));
            return Err(UniquenessError(elem));
        }
        let order_id = elem.order_id;
        let timestamp = elem.timestamp;
        let name = elem.trader_name.clone();
        let ghost e = elem;
        proof {
            lemma_free_after_insert(m.dom(), order_free_keys(self.store));
        }
        let idx = order_slab_insert(&mut self.store, elem);
        self.order_id_index.insert(order_id, idx);
        self.timestamp_index.insert(timestamp, idx);
        trader_add(&mut self.trader_name_index, &name, idx);
        proof {
            let m2 = self@;
            assert(m2 == m.insert(idx, e));
            assert forall|name: Seq<char>| #[trigger]
                self.trader_name_index@.contains_key(name) implies self.trader_name_index@[name]@
                == slots_of_trader(m2, name) && self.trader_name_index@[name]@ != Set::<
                usize,
            >::empty() by {
                if name == e.trader_name@ {
                    assert(self.trader_name_index@[name]@.contains(idx));
                    assert(self.trader_name_index@[name]@ =~= slots_of_trader(m2, name));
                } else {
                    assert(self.trader_name_index@[name]@ =~= slots_of_trader(m2, name));
                }
            }
            assert(!holds_order_id(m, e.order_id));
            assert(!holds_timestamp(m, e.timestamp));
        }
        Ok(order_slab_index(&self.store, idx))
    }

    /// Stores `elem` in the first free slot; `elem` must clash with no
    /// stored order (the map panics otherwise).
    pub fn insert(&mut self, elem: Order) -> (r: &Order)
        requires
            old(self).wf(),
            old(self)@.len() < MAX_STORED,
            !clashes(old(self)@, elem),
        ensures
            final(self).wf(),
            final(self).room() >= old(self).room(),
            *r == elem,
            !old(self)@.contains_key(old(self).free_keys()[0]),
            final(self)@ == old(self)@.insert(old(self).free_keys()[0], elem),
            final(self).free_keys() == after_insert(old(self).free_keys()),
    {
        self.try_insert(elem).expect("Unable to insert element")
    }

    /// Takes the order out of slot `k` and drops `k` from every index.
    fn remove_slot(&mut self, k: usize) -> (o: Order)
        requires
            old(self).wf(),
            old(self)@.contains_key(k),
        ensures
            final(self).wf(),
            final(self).room() == old(self).room(),
            o == old(self)@[k],
            final(self)@ == old(self)@.remove(k),
            final(self).free_keys() == seq![k] + old(self).free_keys(),
    {
        let ghost m = self@;
        proof {
            lemma_free_after_remove(m.dom(), order_free_keys(self.store), k);
        }
        let elem = order_slab_remove(&mut self.store, k);
        self.order_id_index.remove(&elem.order_id);
        self.timestamp_index.remove(&elem.timestamp);
        proof {
            lemma_trader_slots_finite(m, elem.trader_name@);
            assert(slots_of_trader(m, elem.trader_name@).contains(k));
        }
        let ghost old_names = self.trader_name_index@;
        trader_drop(&mut self.trader_name_index, &elem.trader_name, k);
        proof {
            let m2 = self@;
            assert(m2 == m.remove(k));
            let names = self.trader_name_index@;
            assert forall|name: Seq<char>| #[trigger] names.contains_key(name) implies names[name]@
                == slots_of_trader(m2, name) && names[name]@ != Set::<usize>::empty() by {
                if name == elem.trader_name@ {
                    assert(names[name]@ =~= slots_of_trader(m2, name));
                } else {
                    assert(names.remove(elem.trader_name@).contains_key(name));
                    assert(old_names.remove(elem.trader_name@).contains_key(name));
                    assert(names.remove(elem.trader_name@)[name] == names[name]);
                    assert(old_names.remove(elem.trader_name@)[name] == old_names[name]);
                    assert(names[name]@ =~= slots_of_trader(m2, name));
                }
            }
            assert forall|j: usize| #[trigger] m2.contains_key(j) implies names.contains_key(
                m2[j].trader_name@,
            ) by {
                if m2[j].trader_name@ == elem.trader_name@ {
                    assert(slots_of_trader(m, elem.trader_name@).remove(k).contains(j));
                    assert(old_names[elem.trader_name@]@.remove(k) != Set::<usize>::empty());
                } else {
                    assert(old_names.contains_key(m2[j].trader_name@));
                    assert(old_names.remove(elem.trader_name@).contains_key(m2[j].trader_name@));
                    assert(names.remove(elem.trader_name@).contains_key(m2[j].trader_name@));
                }
            }
        }
        elem
    }

    /// Removes the order with this `order_id`, if one is stored, and hands it
    /// back.
    pub fn remove_by_order_id(&mut self, key: &u32) -> (r: Option<Order>)
        requires
            old(self).wf(),
        ensures
            final(self).wf(),
            final(self).room() == old(self).room(),
            match slot_of_order_id(old(self)@, *key) {
                Some(k) => {
                    &&& r == Some(old(self)@[k])
                    &&& final(self)@ == old(self)@.remove(k)
                    &&& final(self).free_keys() == seq![k] + old(self).free_keys()
                },
                None => r is None && final(self)@ == old(self)@ && final(self).free_keys() == old(
                    self,
                ).free_keys(),
            },
    {
        match self.order_id_index.get(key) {
            Some(k) => {
                let k = *k;
                Some(self.remove_slot(k))
            },
            None => None,
        }
    }

    /// Removes the order with this `timestamp`, if one is stored, and hands it
    /// back.
    pub fn remove_by_timestamp(&mut self, key: &u64) -> (r: Option<Order>)
        requires
            old(self).wf(),
        ensures
            final(self).wf(),
            final(self).room() == old(self).room(),
            match slot_of_timestamp(old(self)@, *key) {
                Some(k) => {
                    &&& r == Some(old(self)@[k])
                    &&& final(self)@ == old(self)@.remove(k)
                    &&& final(self).free_keys() == seq![k] + old(self).free_keys()
                },
                None => r is None && final(self)@ == old(self)@ && final(self).free_keys() == old(
                    self,
                ).free_keys(),
            },
    {
        match self.timestamp_index.get(key) {
            Some(k) => {
                let k = *k;
                Some(self.remove_slot(k))
            },
            None => None,
        }
    }

    /// Removes every order of this trader and hands them back in slot order.
    pub fn remove_by_trader_name(&mut self, key: &String) -> (r: Vec<Order>)
        requires
            old(self).wf(),
        ensures
            final(self).wf(),
            final(self).room() == old(self).room(),
            final(self)@ == old(self)@.remove_keys(slots_of_trader(old(self)@, key@)),
            exists|ks: Seq<usize>|
                {
                    &&& lists_ascending(ks, slots_of_trader(old(self)@, key@))
                    &&& r@.len() == ks.len()
                    &&& forall|i: int| 0 <= i < ks.len() ==> r@[i] == old(self)@[#[trigger] ks[i]]
                    &&& final(self).free_keys() == ks.reverse() + old(self).free_keys()
                },
    {
        let ghost m = self@;
        let ghost rm0 = self.room();
        let ghost doomed = slots_of_trader(m, key@);
        let ks: Vec<usize> = match self.trader_name_index.get(key.as_str()) {
            Some(set) => ascending_keys(set),
            None => Vec::new(),
        };
        proof {
            if !self.trader_name_index@.contains_key(key@) {
                assert forall|k: usize| !doomed.contains(k) by {
                    if doomed.contains(k) {
                        assert(self.trader_name_index@.contains_key(m[k].trader_name@));
                    }
                }
                assert(ks@.to_set() =~= doomed);
            }
        }
        let ghost f0 = self.free_keys();
        let mut out: Vec<Order> = Vec::new();
        let mut i: usize = 0;
        while i < ks.len()
            invariant
                self.room() == rm0,
                self.wf(),
                lists_ascending(ks@, doomed),
                doomed == slots_of_trader(m, key@),
                0 <= i <= ks@.len(),
                self@ == m.remove_keys(first_keys(ks@, i as int)),
                self.free_keys() == ks@.take(i as int).reverse() + f0,
                out@.len() == i,
                forall|j: int| 0 <= j < i ==> out@[j] == m[#[trigger] ks@[j]],
            decreases ks@.len() - i,
        {
            let k = ks[i];
            proof {
                assert(ks@.to_set().contains(k));
                assert(!first_keys(ks@, i as int).contains(k)) by {
                    if first_keys(ks@, i as int).contains(k) {
                        let j = choose|j: int| 0 <= j < i && ks@[j] == k;
                        assert(ks@[j] < ks@[i as int]);
                    }
                }
            }
            let o = self.remove_slot(k);
            out.push(o);
            proof {
                assert(first_keys(ks@, i + 1) =~= first_keys(ks@, i as int).insert(k));
                assert(self@ =~= m.remove_keys(first_keys(ks@, i + 1)));
                assert(ks@.take(i + 1).reverse() =~= seq![k] + ks@.take(i as int).reverse());
            }
            i = i + 1;
        }
        proof {
            assert(first_keys(ks@, ks@.len() as int) =~= doomed);
            assert(ks@.take(ks@.len() as int) =~= ks@);
        }
        out
    }

    /// Changing fields that no index looks at keeps the indexes right.
    proof fn lemma_match_same_fields(&self, m1: Map<usize, Order>, m2: Map<usize, Order>)
        requires
            self.indexes_match(m1),
            same_indexed_fields(m1, m2),
        ensures
            self.indexes_match(m2),
    {
        assert forall|name: Seq<char>| #[trigger] slots_of_trader(m1, name) == slots_of_trader(m2, name) by {
            assert(slots_of_trader(m1, name) =~= slots_of_trader(m2, name));
        }
    }

    /// Whatever note slot `k` gets, the indexes stay right.
    proof fn lemma_match_any_note(&self, m: Map<usize, Order>, k: usize)
        requires
            self.indexes_match(m),
            m.contains_key(k),
        ensures
            forall|o: Order|
                o.order_id == m[k].order_id && o.timestamp == m[k].timestamp && o.trader_name
                    == m[k].trader_name ==> #[trigger] indexes_agree(
                    self.order_id_index@,
                    self.timestamp_index@,
                    self.trader_name_index@,
                    m.insert(k, o),
                ),
    {
        assert forall|o: Order|
            o.order_id == m[k].order_id && o.timestamp == m[k].timestamp && o.trader_name
                == m[k].trader_name implies #[trigger] indexes_agree(
                self.order_id_index@,
                self.timestamp_index@,
                self.trader_name_index@,
                m.insert(k, o),
            ) by {
            let m2 = m.insert(k, o);
            assert(m2.dom() =~= m.dom());
            assert(same_indexed_fields(m, m2));
            self.lemma_match_same_fields(m, m2);
        }
    }

    /// Brings the indexes up to date after the order in slot `k` changed from
    /// `before` to what the store now holds there.
    fn fix_indexes(
        &mut self,
        k: usize,
        orig_id: u32,
        orig_ts: u64,
        orig_name: &String,
        Ghost(before): Ghost<Order>,
    )
        requires
            order_slots(old(self).store).dom().finite(),
            old(self)@.contains_key(k),
            old(self).indexes_match(old(self)@.insert(k, before)),
            before.order_id == orig_id,
            before.timestamp == orig_ts,
            before.trader_name@ == orig_name@,
            fits_at(old(self)@, k, old(self)@[k]),
            free_keys_ok(old(self)@.dom(), old(self).free_keys()),
        ensures
            final(self).wf(),
            final(self).room() == old(self).room(),
            final(self).free_keys() == old(self).free_keys(),
            final(self)@ == old(self)@,
    {
        let ghost m = self@;
        let ghost mb = m.insert(k, before);
        let ghost n = m[k];
        let e = order_slab_index(&self.store, k);
        if e.order_id != orig_id {
            self.order_id_index.remove(&orig_id);
            self.order_id_index.insert(e.order_id, k);
        }
        if e.timestamp != orig_ts {
            self.timestamp_index.remove(&orig_ts);
            self.timestamp_index.insert(e.timestamp, k);
        }
        proof {
            assert(mb.contains_key(k));
            let ids = self.order_id_index@;
            assert forall|id: u32| #[trigger] ids.contains_key(id) implies m.contains_key(ids[id])
                && m[ids[id]].order_id == id by {
                if id != n.order_id && id != orig_id {
                    assert(mb.contains_key(ids[id]) && mb[ids[id]].order_id == id);
                }
            }
            assert forall|j: usize| #[trigger] m.contains_key(j) implies ids.contains_key(
                m[j].order_id,
            ) && ids[m[j].order_id] == j by {
                assert(mb.contains_key(j));
            }
            let tss = self.timestamp_index@;
            assert forall|ts: u64| #[trigger] tss.contains_key(ts) implies m.contains_key(tss[ts])
                && m[tss[ts]].timestamp == ts by {
                if ts != n.timestamp && ts != orig_ts {
                    assert(mb.contains_key(tss[ts]) && mb[tss[ts]].timestamp == ts);
                }
            }
            assert forall|j: usize| #[trigger] m.contains_key(j) implies tss.contains_key(
                m[j].timestamp,
            ) && tss[m[j].timestamp] == j by {
                assert(mb.contains_key(j));
            }
        }
        if e.trader_name != *orig_name {
            proof {
                assert(mb.dom().finite());
                lemma_trader_slots_finite(mb, orig_name@);
                assert(slots_of_trader(mb, orig_name@).contains(k));
            }
            let ghost names0 = self.trader_name_index@;
            trader_drop(&mut self.trader_name_index, orig_name, k);
            let ghost names1 = self.trader_name_index@;
            trader_add(&mut self.trader_name_index, &e.trader_name, k);
            proof {
                let names = self.trader_name_index@;
                let on = orig_name@;
                let nn = n.trader_name@;
                assert forall|name: Seq<char>| #[trigger] names.contains_key(name) implies names[name]@
                    == slots_of_trader(m, name) && names[name]@ != Set::<usize>::empty() by {
                    if name == nn {
                        if names0.contains_key(nn) {
                            assert(names1.remove(on).contains_key(nn));
                            assert(names0.remove(on).contains_key(nn));
                            assert(names1.remove(on)[nn] == names1[nn]);
                            assert(names0.remove(on)[nn] == names0[nn]);
                            assert(names1[nn]@ == slots_of_trader(mb, nn));
                        } else {
                            assert(!names1.contains_key(nn)) by {
                                if names1.contains_key(nn) {
                                    assert(names1.remove(on).contains_key(nn));
                                }
                            }
                            assert forall|j: usize| !slots_of_trader(mb, nn).contains(j) by {
                                if slots_of_trader(mb, nn).contains(j) {
                                    assert(mb.contains_key(j));
                                }
                            }
                        }
                        assert(names[name]@ =~= slots_of_trader(m, name));
                        assert(names[name]@.contains(k));
                    } else if name == on {
                        assert(names1.contains_key(name));
                        assert(names[name] == names1[name]);
                        assert(names1[name]@ == names0[name]@.remove(k));
                        assert(names[name]@ =~= slots_of_trader(m, name));
                    } else {
                        assert(names1.contains_key(name));
                        assert(names1.remove(on).contains_key(name));
                        assert(names0.remove(on).contains_key(name));
                        assert(names1.remove(on)[name] == names1[name]);
                        assert(names0.remove(on)[name] == names0[name]);
                        assert(names[name]@ =~= slots_of_trader(m, name));
                    }
                }
                assert forall|j: usize| #[trigger] m.contains_key(j) implies names.contains_key(
                    m[j].trader_name@,
                ) by {
                    let jn = m[j].trader_name@;
                    assert(mb.contains_key(j));
                    if jn != nn && jn != on {
                        assert(names0.remove(on).contains_key(jn));
                        assert(names1.remove(on).contains_key(jn));
                    } else if jn == on && jn != nn {
                        assert(slots_of_trader(mb, on).remove(k).contains(j));
                    }
                }
            }
        } else {
            proof {
                let names = self.trader_name_index@;
                assert forall|name: Seq<char>| #[trigger] names.contains_key(name) implies names[name]@
                    == slots_of_trader(m, name) && names[name]@ != Set::<usize>::empty() by {
                    assert(slots_of_trader(mb, name) =~= slots_of_trader(m, name));
                }
                assert forall|j: usize| #[trigger] m.contains_key(j) implies names.contains_key(
                    m[j].trader_name@,
                ) by {
                    assert(mb.contains_key(j));
                }
            }
        }
    }

    /// Applies `f` to the order with this `order_id`, if one is stored, then
    /// refiles it under its new fields. `f` must not give it an `order_id`
    /// or a `timestamp` that another order has (the map panics on that).
    pub fn modify_by_order_id(&mut self, key: &u32, f: impl FnOnce(&mut Order)) -> (r: Option<&Order>)
        requires
            old(self).wf(),
            forall|x: &mut Order|
                slot_of_order_id(old(self)@, *key) matches Some(k) && *x == old(self)@[k] ==> call_requires(
                    f,
                    (x,),
                ),
            forall|x: &mut Order|
                slot_of_order_id(old(self)@, *key) matches Some(k) ==> (*x == old(self)@[k]
                    && #[trigger] call_ensures(f, (x,), ()) ==> fits_at(old(self)@, k, *final(x))),
        ensures
            final(self).wf(),
            final(self).room() == old(self).room(),
            final(self).free_keys() == old(self).free_keys(),
            match slot_of_order_id(old(self)@, *key) {
                Some(k) => {
                    &&& r is Some
                    &&& exists|x: &mut Order|
                        *x == old(self)@[k] && call_ensures(f, (x,), ()) && *final(x) == *r.unwrap()
                    &&& final(self)@ == old(self)@.insert(k, *r.unwrap())
                },
                None => r is None && final(self)@ == old(self)@,
            },
    {
        let k = match self.order_id_index.get(key) {
            Some(k) => *k,
            None => return None,
        };
        self.modify_slot(k, f);
        Some(order_slab_index(&self.store, k))
    }

    /// Applies `f` to the order with this `timestamp`, if one is stored, then
    /// refiles it under its new fields. `f` must not give it an `order_id`
    /// or a `timestamp` that another order has (the map panics on that).
    pub fn modify_by_timestamp(&mut self, key: &u64, f: impl FnOnce(&mut Order)) -> (r: Option<&Order>)
        requires
            old(self).wf(),
            forall|x: &mut Order|
                slot_of_timestamp(old(self)@, *key) matches Some(k) && *x == old(self)@[k] ==> call_requires(
                    f,
                    (x,),
                ),
            forall|x: &mut Order|
                slot_of_timestamp(old(self)@, *key) matches Some(k) ==> (*x == old(self)@[k]
                    && #[trigger] call_ensures(f, (x,), ()) ==> fits_at(old(self)@, k, *final(x))),
        ensures
            final(self).wf(),
            final(self).room() == old(self).room(),
            final(self).free_keys() == old(self).free_keys(),
            match slot_of_timestamp(old(self)@, *key) {
                Some(k) => {
                    &&& r is Some
                    &&& exists|x: &mut Order|
                        *x == old(self)@[k] && call_ensures(f, (x,), ()) && *final(x) == *r.unwrap()
                    &&& final(self)@ == old(self)@.insert(k, *r.unwrap())
                },
                None => r is None && final(self)@ == old(self)@,
            },
    {
        let k = match self.timestamp_index.get(key) {
            Some(k) => *k,
            None => return None,
        };
        self.modify_slot(k, f);
        Some(order_slab_index(&self.store, k))
    }

    /// Applies `f` to the order in slot `k` and refiles it.
    fn modify_slot<F: FnOnce(&mut Order)>(&mut self, k: usize, f: F)
        requires
            old(self).wf(),
            old(self)@.contains_key(k),
            forall|x: &mut Order| *x == old(self)@[k] ==> call_requires(f, (x,)),
            forall|x: &mut Order|
                *x == old(self)@[k] && call_ensures(f, (x,), ()) ==> fits_at(old(self)@, k, *final(x)),
        ensures
            final(self).wf(),
            final(self).room() == old(self).room(),
            final(self).free_keys() == old(self).free_keys(),
            final(self)@.dom() == old(self)@.dom(),
            exists|x: &mut Order|
                *x == old(self)@[k] && call_ensures(f, (x,), ()) && *final(x) == final(self)@[k],
            final(self)@ == old(self)@.insert(k, final(self)@[k]),
    {
        let ghost m = self@;
        let ghost before = m[k];
        let elem = order_slab_index_mut(&mut self.store, k);
        let orig_id = elem.order_id;
        let orig_ts = elem.timestamp;
        let orig_name = elem.trader_name.clone();
        f(elem);
        let ghost after = *elem;
        proof {
            assert(self@[k] == after);
            assert(fits_at(m, k, after));
            assert(self@.insert(k, before) =~= m);
        }
        self.fix_indexes(k, orig_id, orig_ts, &orig_name, Ghost(before));
    }

    /// Applies `f` to every order of this trader, in slot order, refiling
    /// each one right after its change, and returns them in slot order.
    /// No order may be given an `order_id` or a `timestamp` that some other
    /// order holds at the moment of its change (the map panics on that).
    pub fn modify_by_trader_name(&mut self, key: &String, mut f: impl FnMut(&mut Order)) -> (r: Vec<&Order>)
        requires
            old(self).wf(),
            forall|k: usize, x: &mut Order|
                slots_of_trader(old(self)@, key@).contains(k) && *x == old(self)@[k] ==> call_requires(
                    f,
                    (x,),
                ),
            forall|k: usize, x: &mut Order|
                #[trigger] slots_of_trader(old(self)@, key@).contains(k) && *x == old(self)@[k]
                    && #[trigger] call_ensures(f, (x,), ()) ==> forall|j: usize|
                    old(self)@.contains_key(j) && j != k && !(slots_of_trader(old(self)@, key@).contains(j)
                        && j < k) ==> old(self)@[j].order_id != final(x).order_id && old(self)@[j].timestamp
                        != final(x).timestamp,
            forall|k1: usize, k2: usize, x1: &mut Order, x2: &mut Order|
                #[trigger] slots_of_trader(old(self)@, key@).contains(k1)
                    && #[trigger] slots_of_trader(old(self)@, key@).contains(k2) && k1 < k2 && *x1 == old(self)@[k1] && #[trigger] call_ensures(f, (x1,), ()) && *x2
                    == old(self)@[k2] && #[trigger] call_ensures(f, (x2,), ()) ==> final(x1).order_id
                    != final(x2).order_id && final(x1).timestamp != final(x2).timestamp,
        ensures
            final(self).wf(),
            final(self).room() == old(self).room(),
            final(self).free_keys() == old(self).free_keys(),
            final(self)@.dom() == old(self)@.dom(),
            forall|k: usize|
                old(self)@.contains_key(k) && !slots_of_trader(old(self)@, key@).contains(k)
                    ==> final(self)@[k] == old(self)@[k],
            forall|k: usize|
                slots_of_trader(old(self)@, key@).contains(k) ==> exists|x: &mut Order|
                    *x == old(self)@[k] && call_ensures(f, (x,), ()) && *final(x) == final(self)@[k],
            exists|ks: Seq<usize>|
                lists_ascending(ks, slots_of_trader(old(self)@, key@)) && orders_at(final(self)@, ks, r@),
    {
        let ghost m = self@;
        let ghost rm0 = self.room();
        let ghost fk0 = self.free_keys();
        let ghost f0 = f;
        let ghost targets = slots_of_trader(m, key@);
        let ks: Vec<usize> = match self.trader_name_index.get(key.as_str()) {
            Some(set) => ascending_keys(set),
            None => Vec::new(),
        };
        proof {
            if !self.trader_name_index@.contains_key(key@) {
                assert forall|k: usize| !targets.contains(k) by {
                    if targets.contains(k) {
                        assert(self.trader_name_index@.contains_key(m[k].trader_name@));
                    }
                }
                assert(ks@.to_set() =~= targets);
            }
        }
        let mut i: usize = 0;
        while i < ks.len()
            invariant
                self.room() == rm0,
                self.wf(),
                self.free_keys() == fk0,
                lists_ascending(ks@, targets),
                targets == slots_of_trader(m, key@),
                0 <= i <= ks@.len(),
                self@.dom() == m.dom(),
                forall|j: usize|
                    m.contains_key(j) && !first_keys(ks@, i as int).contains(j) ==> self@[j] == m[j],
                forall|j: usize|
                    first_keys(ks@, i as int).contains(j) ==> exists|x: &mut Order|
                        *x == m[j] && call_ensures(f0, (x,), ()) && *final(x) == self@[j],
                forall|k: usize, x: &mut Order|
                    targets.contains(k) && *x == m[k] ==> call_requires(f0, (x,)),
                forall|k: usize, x: &mut Order|
                    #[trigger] targets.contains(k) && *x == m[k] && #[trigger] call_ensures(f0, (x,), ())
                        ==> forall|j: usize|
                        m.contains_key(j) && j != k && !(targets.contains(j) && j < k)
                            ==> m[j].order_id != final(x).order_id && m[j].timestamp
                            != final(x).timestamp,
                forall|k1: usize, k2: usize, x1: &mut Order, x2: &mut Order|
                    #[trigger] targets.contains(k1) && #[trigger] targets.contains(k2) && k1 < k2 && *x1 == m[k1]
                        && #[trigger] call_ensures(f0, (x1,), ()) && *x2 == m[k2]
                        && #[trigger] call_ensures(f0, (x2,), ()) ==> final(x1).order_id
                        != final(x2).order_id && final(x1).timestamp != final(x2).timestamp,
                f == f0,
            decreases ks@.len() - i,
        {
            let k = ks[i];
            let ghost cur = self@;
            proof {
                assert(ks@.to_set().contains(k));
                assert(!first_keys(ks@, i as int).contains(k)) by {
                    if first_keys(ks@, i as int).contains(k) {
                        let j = choose|j: int| 0 <= j < i && ks@[j] == k;
                        assert(ks@[j] < ks@[i as int]);
                    }
                }
            }
            let elem = order_slab_index_mut(&mut self.store, k);
            let orig_id = elem.order_id;
            let orig_ts = elem.timestamp;
            let orig_name = elem.trader_name.clone();
            f(elem);
            let ghost after = *elem;
            proof {
                assert(self@[k] == after);
                assert(exists|x: &mut Order|
                    *x == m[k] && call_ensures(f0, (x,), ()) && *final(x) == after);
                lemma_step_fits(m, targets, ks@, i as int, cur, after, f0);
                assert(self@.insert(k, m[k]) =~= cur);
            }
            self.fix_indexes(k, orig_id, orig_ts, &orig_name, Ghost(m[k]));
            proof {
                assert(first_keys(ks@, i + 1) =~= first_keys(ks@, i as int).insert(k));
            }
            i = i + 1;
        }
        proof {
            assert(first_keys(ks@, ks@.len() as int) =~= targets);
            assert forall|k: usize| targets.contains(k) implies exists|x: &mut Order|
                *x == m[k] && call_ensures(f0, (x,), ()) && *final(x) == self@[k] by {
                assert(first_keys(ks@, i as int).contains(k));
            }
        }
        let ghost done = self@;
        let mut out: Vec<&Order> = Vec::new();
        let mut p: usize = 0;
        while p < ks.len()
            invariant
                self.room() == rm0,
                self.wf(),
                self.free_keys() == fk0,
                self@ == done,
                lists_ascending(ks@, targets),
                targets.subset_of(self@.dom()),
                0 <= p <= ks@.len(),
                out@.len() == p,
                forall|q: int| 0 <= q < p ==> *out@[q] == self@[ks@[q]],
            decreases ks@.len() - p,
        {
            proof {
                assert(ks@.to_set().contains(ks@[p as int]));
            }
            out.push(order_slab_index(&self.store, ks[p]));
            p = p + 1;
        }
        proof {
            assert(orders_at(self@, ks@, out@));
        }
        out
    }

    /// Applies `f` to the note of the order with this `order_id`, if one is
    /// stored; no index looks at the note.
    pub fn update_by_order_id(&mut self, key: &u32, f: impl FnOnce(&mut String)) -> (r: Option<&Order>)
        requires
            old(self).wf(),
            forall|x: &mut String|
                slot_of_order_id(old(self)@, *key) matches Some(k) ==> (*x == old(self)@[k].note
                    ==> #[trigger] call_requires(f, (x,))),
        ensures
            final(self).wf(),
            final(self).room() == old(self).room(),
            final(self).free_keys() == old(self).free_keys(),
            match slot_of_order_id(old(self)@, *key) {
                Some(k) => {
                    &&& r is Some
                    &&& exists|x: &mut String|
                        *x == old(self)@[k].note && call_ensures(f, (x,), ())
                            && *r.unwrap() == old(self)@[k].with_note(*final(x))
                    &&& final(self)@ == old(self)@.insert(k, *r.unwrap())
                },
                None => r is None && final(self)@ == old(self)@,
            },
    {
        let k = match self.order_id_index.get(key) {
            Some(k) => *k,
            None => return None,
        };
        self.update_slot(k, f);
        Some(order_slab_index(&self.store, k))
    }

    /// Applies `f` to the note of the order with this `timestamp`, if one is
    /// stored; no index looks at the note.
    pub fn update_by_timestamp(&mut self, key: &u64, f: impl FnOnce(&mut String)) -> (r: Option<&Order>)
        requires
            old(self).wf(),
            forall|x: &mut String|
                slot_of_timestamp(old(self)@, *key) matches Some(k) ==> (*x == old(self)@[k].note
                    ==> #[trigger] call_requires(f, (x,))),
        ensures
            final(self).wf(),
            final(self).room() == old(self).room(),
            final(self).free_keys() == old(self).free_keys(),
            match slot_of_timestamp(old(self)@, *key) {
                Some(k) => {
                    &&& r is Some
                    &&& exists|x: &mut String|
                        *x == old(self)@[k].note && call_ensures(f, (x,), ())
                            && *r.unwrap() == old(self)@[k].with_note(*final(x))
                    &&& final(self)@ == old(self)@.insert(k, *r.unwrap())
                },
                None => r is None && final(self)@ == old(self)@,
            },
    {
        let k = match self.timestamp_index.get(key) {
            Some(k) => *k,
            None => return None,
        };
        self.update_slot(k, f);
        Some(order_slab_index(&self.store, k))
    }

    /// Applies `f` to the note in slot `k`.
    fn update_slot<F: FnOnce(&mut String)>(&mut self, k: usize, f: F)
        requires
            old(self).wf(),
            old(self)@.contains_key(k),
            forall|x: &mut String| *x == old(self)@[k].note ==> call_requires(f, (x,)),
        ensures
            final(self).wf(),
            final(self).room() == old(self).room(),
            final(self).free_keys() == old(self).free_keys(),
            exists|x: &mut String|
                *x == old(self)@[k].note && call_ensures(f, (x,), ()) && *final(x)
                    == final(self)@[k].note,
            final(self)@ == old(self)@.insert(k, old(self)@[k].with_note(final(self)@[k].note)),
    {
        let ghost m = self@;
        let elem = order_slab_index_mut(&mut self.store, k);
        f(&mut elem.note);
        let ghost after = *elem;
        proof {
            assert(self@[k] == after);
            assert(after.order_id == m[k].order_id);
            assert(after.trader_name == m[k].trader_name);
            assert(self@.dom() =~= m.dom());
            assert(same_indexed_fields(m, self@));
            self.lemma_match_same_fields(m, self@);
            assert(self@ =~= m.insert(k, m[k].with_note(self@[k].note)));
        }
    }

    /// Applies `f` to the note of every order of this trader, in slot order,
    /// and returns those orders in slot order.
    pub fn update_by_trader_name(&mut self, key: &str, mut f: impl FnMut(&mut String)) -> (r: Vec<&Order>)
        requires
            old(self).wf(),
            forall|k: usize, x: &mut String|
                slots_of_trader(old(self)@, key@).contains(k) && *x == old(self)@[k].note
                    ==> call_requires(f, (x,)),
        ensures
            final(self).wf(),
            final(self).room() == old(self).room(),
            final(self).free_keys() == old(self).free_keys(),
            final(self)@.dom() == old(self)@.dom(),
            forall|k: usize|
                old(self)@.contains_key(k) && !slots_of_trader(old(self)@, key@).contains(k)
                    ==> final(self)@[k] == old(self)@[k],
            forall|k: usize|
                slots_of_trader(old(self)@, key@).contains(k) ==> exists|x: &mut String|
                    *x == old(self)@[k].note && call_ensures(f, (x,), ()) && final(self)@[k]
                        == old(self)@[k].with_note(*final(x)),
            exists|ks: Seq<usize>|
                lists_ascending(ks, slots_of_trader(old(self)@, key@)) && orders_at(final(self)@, ks, r@),
    {
        let ghost m = self@;
        let ghost rm0 = self.room();
        let ghost fk0 = self.free_keys();
        let ghost f0 = f;
        let ghost targets = slots_of_trader(m, key@);
        let ks = self.trader_slots(key);
        let mut i: usize = 0;
        while i < ks.len()
            invariant
                self.room() == rm0,
                self.wf(),
                self.free_keys() == fk0,
                f == f0,
                lists_ascending(ks@, targets),
                targets == slots_of_trader(m, key@),
                0 <= i <= ks@.len(),
                self@.dom() == m.dom(),
                forall|j: usize|
                    m.contains_key(j) && !first_keys(ks@, i as int).contains(j) ==> self@[j] == m[j],
                forall|j: usize|
                    first_keys(ks@, i as int).contains(j) ==> exists|x: &mut String|
                        *x == m[j].note && call_ensures(f, (x,), ()) && self@[j] == m[j].with_note(
                            *final(x),
                        ),
                forall|k: usize, x: &mut String|
                    targets.contains(k) && *x == m[k].note ==> call_requires(f, (x,)),
            decreases ks@.len() - i,
        {
            let k = ks[i];
            proof {
                assert(ks@.to_set().contains(k));
                assert(!first_keys(ks@, i as int).contains(k)) by {
                    if first_keys(ks@, i as int).contains(k) {
                        let j = choose|j: int| 0 <= j < i && ks@[j] == k;
                        assert(ks@[j] < ks@[i as int]);
                    }
                }
            }
            let ghost cur = self@;
            let elem = order_slab_index_mut(&mut self.store, k);
            f(&mut elem.note);
            let ghost after = *elem;
            proof {
                assert(self@[k] == after);
                assert(after.trader_name == cur[k].trader_name);
                assert(self@.dom() =~= cur.dom());
                assert(same_indexed_fields(cur, self@));
                self.lemma_match_same_fields(cur, self@);
                assert(first_keys(ks@, i + 1) =~= first_keys(ks@, i as int).insert(k));
                let ip1 = i + 1;
                assert forall|j: usize| #[trigger] first_keys(ks@, ip1).contains(j) implies exists|x: &mut String|
                    *x == m[j].note && call_ensures(f, (x,), ()) && self@[j] == m[j].with_note(*final(x)) by {
                    if j == k {
                        assert(m[k] == cur[k]);
                        assert(self@[k] == cur[k].with_note(after.note));
                    } else {
                        assert(first_keys(ks@, i as int).contains(j));
                        assert(self@[j] == cur[j]);
                    }
                }
            }
            i = i + 1;
        }
        proof {
            assert(first_keys(ks@, ks@.len() as int) =~= targets);
            assert forall|k: usize| targets.contains(k) implies exists|x: &mut String|
                *x == m[k].note && call_ensures(f, (x,), ()) && self@[k] == m[k].with_note(*final(x)) by {
                assert(first_keys(ks@, i as int).contains(k));
            }
            assert forall|i: int| 0 <= i < ks@.len() implies self@.contains_key(#[trigger] ks@[i]) by {
                assert(ks@.to_set().contains(ks@[i]));
            }
        }
        self.orders_at_slots(&ks)
    }

    /// The slots of this trader's orders, ascending.
    fn trader_slots(&self, key: &str) -> (ks: Vec<usize>)
        requires
            self.wf(),
        ensures
            lists_ascending(ks@, slots_of_trader(self@, key@)),
    {
        let ghost m = self@;
        let ks: Vec<usize> = match self.trader_name_index.get(key) {
            Some(set) => ascending_keys(set),
            None => Vec::new(),
        };
        proof {
            if !self.trader_name_index@.contains_key(key@) {
                assert forall|k: usize| !slots_of_trader(m, key@).contains(k) by {
                    if slots_of_trader(m, key@).contains(k) {
                        assert(self.trader_name_index@.contains_key(m[k].trader_name@));
                    }
                }
                assert(ks@.to_set() =~= slots_of_trader(m, key@));
            }
        }
        ks
    }

    /// The orders in the slots `ks`, in that order.
    fn orders_at_slots(&self, ks: &Vec<usize>) -> (r: Vec<&Order>)
        requires
            forall|i: int| 0 <= i < ks@.len() ==> self@.contains_key(#[trigger] ks@[i]),
        ensures
            orders_at(self@, ks@, r@),
    {
        let mut out: Vec<&Order> = Vec::new();
        let mut p: usize = 0;
        while p < ks.len()
            invariant
                forall|i: int| 0 <= i < ks@.len() ==> self@.contains_key(#[trigger] ks@[i]),
                0 <= p <= ks@.len(),
                out@.len() == p,
                forall|q: int| 0 <= q < p ==> *out@[q] == self@[ks@[q]],
            decreases ks@.len() - p,
        {
            out.push(order_slab_index(&self.store, ks[p]));
            p = p + 1;
        }
        out
    }

    /// The orders of this trader, in slot order.
    pub fn get_by_trader_name(&self, key: &str) -> (r: Vec<&Order>)
        requires
            self.wf(),
        ensures
            exists|ks: Seq<usize>| lists_ascending(ks, slots_of_trader(self@, key@)) && orders_at(self@, ks, r@),
    {
        let ks = self.trader_slots(key);
        proof {
            assert forall|i: int| 0 <= i < ks@.len() implies self@.contains_key(#[trigger] ks@[i]) by {
                assert(ks@.to_set().contains(ks@[i]));
            }
        }
        self.orders_at_slots(&ks)
    }

    /// Every slot with its order, by increasing key.
    pub fn iter(&self) -> (r: Vec<(usize, &Order)>)
        requires
            self.wf(),
        ensures
            lists_entries(self@, r@),
    {
        order_slab_entries(&self.store)
    }

    /// Every order, in the order in which the `order_id` index is walked.
    pub fn iter_by_order_id(&self) -> (r: Vec<&Order>)
        requires
            self.wf(),
        ensures
            exists|ks: Seq<usize>| lists_all(ks, self@.dom()) && orders_at(self@, ks, r@),
    {
        let ghost m = self@;
        let ghost ids = self.order_id_index@;
        let ghost full = self.order_id_index.iter().remaining();
        let ghost ks = full.map_values(|e: (&u32, &usize)| *e.1);
        let mut out: Vec<&Order> = Vec::new();
        proof {
            assert forall|i: int| 0 <= i < ks.len() implies m.contains_key(ks[i]) by {
                assert(ids.contains_key(*full[i].0));
            }
        }
        for entry in it: self.order_id_index.iter()
            invariant
                self.wf(),
                m == self@,
                it.seq() == full,
                ks == full.map_values(|e: (&u32, &usize)| *e.1),
                forall|i: int| 0 <= i < ks.len() ==> m.contains_key(ks[i]),
                out@ == ks.take(it.index()).map_values(|k: usize| &m[k]),
        {
            let (_, k) = entry;
            proof {
                assert(full[it.index()] == entry);
                assert(ks[it.index()] == *k);
            }
            out.push(order_slab_index(&self.store, *k));
            proof {
                assert(ks.take(it.index() + 1).map_values(|k: usize| &m[k]) =~= out@);
            }
        }
        proof {
            assert(ks.take(ks.len() as int) =~= ks);
            assert forall|j: usize| m.contains_key(j) implies ks.contains(j) by {
                let id = m[j].order_id;
                assert(ids.contains_key(id));
                assert(full.contains((&id, &ids[id])));
                let i = choose|i: int| 0 <= i < full.len() && full[i] == (&id, &ids[id]);
                assert(ks[i] == j);
            }
            assert forall|a: int, b: int| 0 <= a < ks.len() && 0 <= b < ks.len() && a != b implies ks[a]
                != ks[b] by {
                assert(ids.contains_key(*full[a].0));
                assert(ids.contains_key(*full[b].0));
                if ks[a] == ks[b] {
                    assert(*full[a].0 == *full[b].0);
                    assert(full[a] == full[b]);
                }
            }
            assert(ks.to_set() =~= m.dom());
            assert(lists_all(ks, m.dom()));
            assert(orders_at(m, ks, out@));
        }
        out
    }

    /// Every order, the orders of each trader together and by slot order.
    pub fn iter_by_trader_name(&self) -> (r: Vec<&Order>)
        requires
            self.wf(),
        ensures
            exists|ks: Seq<usize>|
                {
                    &&& lists_all(ks, self@.dom())
                    &&& orders_at(self@, ks, r@)
                    &&& grouped_by_trader(self@, ks)
                },
    {
        let ghost m = self@;
        let entries = order_slab_entries(&self.store);
        let ghost es = entries@;
        let ghost mut ks: Seq<usize> = Seq::empty();
        let mut out: Vec<&Order> = Vec::new();
        let mut p: usize = 0;
        while p < entries.len()
            invariant
                self.wf(),
                m == self@,
                es == entries@,
                lists_entries(m, es),
                0 <= p <= es.len(),
                ks.no_duplicates(),
                forall|i: int| 0 <= i < ks.len() ==> m.contains_key(ks[i]),
                forall|k: usize|
                    ks.contains(k) <==> m.contains_key(k) && exists|q: int|
                        0 <= q < p && first_of_trader(m, #[trigger] es[q].0) && m[es[q].0].trader_name@
                            == m[k].trader_name@,
                grouped_by_trader(m, ks),
                orders_at(m, ks, out@),
            decreases es.len() - p,
        {
            let (k, o) = entries[p];
            let g = self.trader_slots(&o.trader_name);
            proof {
                assert(m.contains_key(es[p as int].0));
            }
            if g.len() > 0 && g[0] == k {
                let ghost n = o.trader_name@;
                proof {
                    assert(first_of_trader(m, k)) by {
                        assert forall|j: usize| #[trigger] m.contains_key(j) && m[j].trader_name@
                            == m[k].trader_name@ implies k <= j by {
                            assert(slots_of_trader(m, n).contains(j));
                            assert(g@.to_set().contains(j));
                            let t = choose|t: int| 0 <= t < g@.len() && g@[t] == j;
                            if t > 0 {
                                assert(g@[0] < g@[t]);
                            }
                        }
                    }
                    assert forall|i: int| 0 <= i < ks.len() implies m[ks[i]].trader_name@ != n by {
                        assert(ks.contains(ks[i]));
                        if m[ks[i]].trader_name@ == n {
                            let q = choose|q: int|
                                0 <= q < p && first_of_trader(m, #[trigger] es[q].0)
                                    && m[es[q].0].trader_name@ == m[ks[i]].trader_name@;
                            assert(m.contains_key(es[q].0));
                            assert(es[q].0 < es[p as int].0);
                            assert(m.contains_key(k));
                        }
                    }
                }
                let ghost ks0 = ks;
                let mut t: usize = 0;
                while t < g.len()
                    invariant
                        self.wf(),
                        m == self@,
                        lists_ascending(g@, slots_of_trader(m, n)),
                        0 <= t <= g@.len(),
                        forall|i: int| 0 <= i < ks0.len() ==> m.contains_key(ks0[i]),
                        orders_at(m, ks0 + g@.take(t as int), out@),
                    decreases g@.len() - t,
                {
                    proof {
                        assert(g@.to_set().contains(g@[t as int]));
                    }
                    let ghost out0 = out@;
                    let o = order_slab_index(&self.store, g[t]);
                    out.push(o);
                    proof {
                        let kb = ks0 + g@.take(t as int);
                        let ka = ks0 + g@.take(t + 1);
                        assert(ka =~= kb.push(g@[t as int]));
                        lemma_orders_push(m, kb, out0, g@[t as int], o);
                        assert(out@ == out0.push(o));
                    }
                    t = t + 1;
                }
                proof {
                    ks = ks0 + g@;
                }
                proof {
                    assert(g@.take(g@.len() as int) =~= g@);
                    lemma_append_group(m, ks0, g@, n);
                    assert forall|i: int| 0 <= i < ks.len() implies m.contains_key(ks[i]) by {
                        if i >= ks0.len() {
                            assert(g@.to_set().contains(g@[i - ks0.len()]));
                        }
                    }
                    assert forall|j: usize|
                        ks.contains(j) <==> m.contains_key(j) && exists|q: int|
                            0 <= q < p + 1 && first_of_trader(m, #[trigger] es[q].0)
                                && m[es[q].0].trader_name@ == m[j].trader_name@ by {
                        if ks.contains(j) {
                            let i = choose|i: int| 0 <= i < ks.len() && ks[i] == j;
                            if i >= ks0.len() {
                                assert(g@[i - ks0.len()] == j);
                                assert(g@.to_set().contains(j));
                                assert(first_of_trader(m, es[p as int].0));
                            } else {
                                assert(ks0.contains(j));
                            }
                        }
                        if m.contains_key(j) && exists|q: int|
                            0 <= q < p + 1 && first_of_trader(m, #[trigger] es[q].0)
                                && m[es[q].0].trader_name@ == m[j].trader_name@ {
                            let q = choose|q: int|
                                0 <= q < p + 1 && first_of_trader(m, #[trigger] es[q].0)
                                    && m[es[q].0].trader_name@ == m[j].trader_name@;
                            if q < p {
                                assert(ks0.contains(j));
                                let i = choose|i: int| 0 <= i < ks0.len() && ks0[i] == j;
                                assert(ks[i] == j);
                            } else {
                                assert(slots_of_trader(m, n).contains(j));
                                assert(g@.to_set().contains(j));
                                let i = choose|i: int| 0 <= i < g@.len() && g@[i] == j;
                                assert(ks[ks0.len() + i] == j);
                            }
                        }
                    }
                }
            } else {
                proof {
                    assert(slots_of_trader(m, o.trader_name@).contains(k));
                    assert(g@.to_set().contains(k));
                    assert(!first_of_trader(m, k)) by {
                        assert(g@.len() > 0);
                        assert(g@.to_set().contains(g@[0]));
                        let t = choose|t: int| 0 <= t < g@.len() && g@[t] == k;
                        assert(t != 0);
                        assert(g@[0] < g@[t]);
                        assert(m.contains_key(g@[0]) && m[g@[0]].trader_name@ == m[k].trader_name@);
                    }
                    assert forall|j: usize|
                        ks.contains(j) <==> m.contains_key(j) && exists|q: int|
                            0 <= q < p + 1 && first_of_trader(m, #[trigger] es[q].0)
                                && m[es[q].0].trader_name@ == m[j].trader_name@ by {
                        if m.contains_key(j) && exists|q: int|
                            0 <= q < p + 1 && first_of_trader(m, #[trigger] es[q].0)
                                && m[es[q].0].trader_name@ == m[j].trader_name@ {
                            let q = choose|q: int|
                                0 <= q < p + 1 && first_of_trader(m, #[trigger] es[q].0)
                                    && m[es[q].0].trader_name@ == m[j].trader_name@;
                            assert(q < p);
                        }
                    }
                }
            }
            p = p + 1;
        }
        proof {
            assert forall|j: usize| m.contains_key(j) implies ks.contains(j) by {
                let n = m[j].trader_name@;
                lemma_trader_slots_finite(m, n);
                let first = lemma_trader_has_first(m, j);
                let q = choose|q: int| 0 <= q < es.len() && #[trigger] es[q].0 == first;
            }
            assert(ks.to_set() =~= m.dom());
            assert(lists_all(ks, m.dom()));
        }
        out
    }

    /// Every order, by increasing `timestamp`.
    pub fn iter_by_timestamp(&self) -> (r: Vec<&Order>)
        requires
            self.wf(),
        ensures
            exists|ks: Seq<usize>|
                {
                    &&& lists_all(ks, self@.dom())
                    &&& orders_at(self@, ks, r@)
                    &&& forall|i: int, j: int|
                        0 <= i < j < ks.len() ==> self@[ks[i]].timestamp < self@[ks[j]].timestamp
                },
    {
        let ghost m = self@;
        let ghost tss = self.timestamp_index@;
        let ghost full = self.timestamp_index.iter().remaining();
        let ghost ks = full.map_values(|e: (&u64, &usize)| *e.1);
        let mut out: Vec<&Order> = Vec::new();
        proof {
            assert forall|i: int| 0 <= i < ks.len() implies m.contains_key(ks[i]) by {
                assert(tss.contains_key(*full[i].0));
            }
        }
        for entry in it: self.timestamp_index.iter()
            invariant
                self.wf(),
                m == self@,
                it.seq() == full,
                ks == full.map_values(|e: (&u64, &usize)| *e.1),
                forall|i: int| 0 <= i < ks.len() ==> m.contains_key(ks[i]),
                out@ == ks.take(it.index()).map_values(|k: usize| &m[k]),
        {
            let (_, k) = entry;
            proof {
                assert(full[it.index()] == entry);
                assert(ks[it.index()] == *k);
            }
            out.push(order_slab_index(&self.store, *k));
            proof {
                assert(ks.take(it.index() + 1).map_values(|k: usize| &m[k]) =~= out@);
            }
        }
        proof {
            assert(ks.take(ks.len() as int) =~= ks);
            assert forall|j: usize| m.contains_key(j) implies ks.contains(j) by {
                let ts = m[j].timestamp;
                assert(tss.contains_key(ts));
                assert(full.contains((&ts, &tss[ts])));
                let i = choose|i: int| 0 <= i < full.len() && full[i] == (&ts, &tss[ts]);
                assert(ks[i] == j);
            }
            lemma_increasing_timestamps(full, m, tss);
            assert forall|a: int, b: int| 0 <= a < ks.len() && 0 <= b < ks.len() && a != b implies ks[a]
                != ks[b] by {
                if a < b {
                    assert(m[ks[a]].timestamp < m[ks[b]].timestamp);
                } else {
                    assert(m[ks[b]].timestamp < m[ks[a]].timestamp);
                }
            }
            assert(ks.to_set() =~= m.dom());
            assert(lists_all(ks, m.dom()));
            assert(orders_at(m, ks, out@));
        }
        out
    }

    /// A mutable borrow of the note of the order with this `order_id`, if one
    /// is stored; what is written through it becomes that order's note.
    pub fn get_mut_by_order_id(&mut self, key: &u32) -> (r: Option<(&mut String,)>)
        requires
            old(self).wf(),
        ensures
            final(self).wf(),
            final(self).room() == old(self).room(),
            final(self).free_keys() == old(self).free_keys(),
            match slot_of_order_id(old(self)@, *key) {
                Some(k) => {
                    &&& r is Some
                    &&& *r.unwrap().0 == old(self)@[k].note
                    &&& final(self)@ == old(self)@.insert(k, old(self)@[k].with_note(*final(r.unwrap().0)))
                },
                None => r is None && final(self)@ == old(self)@,
            },
    {
        let k = match self.order_id_index.get(key) {
            Some(k) => *k,
            None => return None,
        };
        let ghost m = self@;
        proof {
            self.lemma_match_any_note(m, k);
        }
        let elem = order_slab_index_mut(&mut self.store, k);
        Some((&mut elem.note,))
    }

    /// A mutable borrow of the note of the order with this `timestamp`, if one
    /// is stored; what is written through it becomes that order's note.
    pub fn get_mut_by_timestamp(&mut self, key: &u64) -> (r: Option<(&mut String,)>)
        requires
            old(self).wf(),
        ensures
            final(self).wf(),
            final(self).room() == old(self).room(),
            final(self).free_keys() == old(self).free_keys(),
            match slot_of_timestamp(old(self)@, *key) {
                Some(k) => {
                    &&& r is Some
                    &&& *r.unwrap().0 == old(self)@[k].note
                    &&& final(self)@ == old(self)@.insert(k, old(self)@[k].with_note(*final(r.unwrap().0)))
                },
                None => r is None && final(self)@ == old(self)@,
            },
    {
        let k = match self.timestamp_index.get(key) {
            Some(k) => *k,
            None => return None,
        };
        let ghost m = self@;
        proof {
            self.lemma_match_any_note(m, k);
        }
        let elem = order_slab_index_mut(&mut self.store, k);
        Some((&mut elem.note,))
    }

    /// Whatever notes the orders get, the indexes stay right.
    proof fn lemma_match_any_notes(&self, m: Map<usize, Order>)
        requires
            self.indexes_match(m),
        ensures
            forall|m2: Map<usize, Order>|
                same_indexed_fields(m, m2) ==> #[trigger] indexes_agree(
                    self.order_id_index@,
                    self.timestamp_index@,
                    self.trader_name_index@,
                    m2,
                ),
    {
        assert forall|m2: Map<usize, Order>|
            same_indexed_fields(m, m2) implies #[trigger] indexes_agree(
                self.order_id_index@,
                self.timestamp_index@,
                self.trader_name_index@,
                m2,
            ) by {
            self.lemma_match_same_fields(m, m2);
        }
    }

    /// Mutable borrows of the notes of every order, in slot order; what is
    /// written through them becomes those orders' notes.
    pub fn iter_mut(&mut self) -> (r: Vec<(&mut String,)>)
        requires
            old(self).wf(),
        ensures
            final(self).wf(),
            final(self).room() == old(self).room(),
            final(self).free_keys() == old(self).free_keys(),
            final(self)@.dom() == old(self)@.dom(),
            exists|ks: Seq<usize>|
                {
                    &&& lists_ascending(ks, old(self)@.dom())
                    &&& r@.len() == ks.len()
                    &&& forall|i: int|
                        0 <= i < ks.len() ==> *r@[i].0 == old(self)@[#[trigger] ks[i]].note
                            && final(self)@[ks[i]] == old(self)@[ks[i]].with_note(*final(r@[i].0))
                },
    {
        let ghost m = self@;
        proof {
            self.lemma_match_any_notes(m);
        }
        let entries = order_slab_entries_mut(&mut self.store);
        let ghost es = entries@;
        let ghost ks = es.map_values(|e: (usize, &mut Order)| e.0);
        let mut out: Vec<(&mut String,)> = Vec::new();
        for e in it: entries
            invariant
                it.seq() == es,
                ks == es.map_values(|e: (usize, &mut Order)| e.0),
                forall|i: int|
                    0 <= i < es.len() ==> m.contains_key(#[trigger] es[i].0) && *es[i].1 == m[es[i].0],
                out@.len() == it.index(),
                forall|i: int|
                    #![trigger es[i]]
                    0 <= i < it.index() ==> *out@[i].0 == m[es[i].0].note && *final(es[i].1)
                        == m[es[i].0].with_note(*final(out@[i].0)),
        {
            let ghost i = it.index();
            proof {
                assert(e == es[i]);
            }
            let (_, elem) = e;
            out.push((&mut elem.note,));
        }
        proof {
            assert(lists_ascending(ks, m.dom())) by {
                assert forall|k: usize| m.contains_key(k) implies ks.contains(k) by {
                    let i = choose|i: int| 0 <= i < es.len() && #[trigger] es[i].0 == k;
                    assert(ks[i] == k);
                }
                assert(ks.to_set() =~= m.dom());
            }
        }
        out
    }

    /// Mutable borrows of the notes of this trader's orders, in slot order;
    /// what is written through them becomes those orders' notes.
    pub fn get_mut_by_trader_name(&mut self, key: &String) -> (r: Vec<(&mut String,)>)
        requires
            old(self).wf(),
        ensures
            final(self).wf(),
            final(self).room() == old(self).room(),
            final(self).free_keys() == old(self).free_keys(),
            final(self)@.dom() == old(self)@.dom(),
            forall|k: usize|
                old(self)@.contains_key(k) && !slots_of_trader(old(self)@, key@).contains(k)
                    ==> final(self)@[k] == old(self)@[k],
            exists|ks: Seq<usize>|
                {
                    &&& lists_ascending(ks, slots_of_trader(old(self)@, key@))
                    &&& r@.len() == ks.len()
                    &&& forall|i: int|
                        0 <= i < ks.len() ==> *r@[i].0 == old(self)@[#[trigger] ks[i]].note
                            && final(self)@[ks[i]] == old(self)@[ks[i]].with_note(*final(r@[i].0))
                },
    {
        let ghost m = self@;
        let ghost targets = slots_of_trader(m, key@);
        let ks = self.trader_slots(key.as_str());
        proof {
            self.lemma_match_any_notes(m);
        }
        let entries = order_slab_entries_mut(&mut self.store);
        let ghost es = entries@;
        let ghost pos = Seq::new(ks@.len(), |q: int| choose|i: int| 0 <= i < es.len() && es[i].0 == ks@[q]);
        proof {
            assert forall|q: int| 0 <= q < ks@.len() implies 0 <= #[trigger] pos[q] < es.len() && es[pos[q]].0 == ks@[q] by {
                assert(ks@.to_set().contains(ks@[q]));
                assert(m.contains_key(ks@[q]));
            }
            assert forall|q1: int, q2: int| 0 <= q1 < q2 < ks@.len() implies pos[q1] < pos[q2] by {
                assert(ks@[q1] < ks@[q2]);
                if pos[q2] <= pos[q1] {
                    if pos[q2] < pos[q1] {
                        assert(es[pos[q2]].0 < es[pos[q1]].0);
                    }
                }
            }
        }
        let mut out: Vec<(&mut String,)> = Vec::new();
        let mut p: usize = 0;
        for e in it: entries
            invariant
                it.seq() == es,
                lists_ascending(ks@, targets),
                forall|i: int, j: int| 0 <= i < j < es.len() ==> es[i].0 < es[j].0,
                forall|i: int|
                    0 <= i < es.len() ==> m.contains_key(#[trigger] es[i].0) && *es[i].1 == m[es[i].0],
                pos.len() == ks@.len(),
                forall|q: int| 0 <= q < ks@.len() ==> 0 <= #[trigger] pos[q] < es.len() && es[pos[q]].0 == ks@[q],
                forall|q1: int, q2: int| 0 <= q1 < q2 < ks@.len() ==> pos[q1] < pos[q2],
                0 <= p <= ks@.len(),
                out@.len() == p,
                forall|q: int| 0 <= q < p ==> #[trigger] pos[q] < it.index(),
                forall|q: int| p <= q < ks@.len() ==> #[trigger] pos[q] >= it.index(),
                forall|q: int| 0 <= q < p ==> *out@[q].0 == m[#[trigger] ks@[q]].note,
                forall|q: int|
                    0 <= q < p ==> *final(es[#[trigger] pos[q]].1) == m[ks@[q]].with_note(*final(out@[q].0)),
                forall|i: int|
                    #![trigger es[i]]
                    0 <= i < it.index() && !targets.contains(es[i].0) ==> *final(es[i].1) == m[es[i].0],
        {
            let ghost i = it.index();
            proof {
                assert(e == es[i]);
            }
            let (k, elem) = e;
            if p < ks.len() && ks[p] == k {
                proof {
                    assert(pos[p as int] == i) by {
                        if pos[p as int] > i {
                            assert(es[i].0 < es[pos[p as int]].0);
                        }
                    }
                }
                out.push((&mut elem.note,));
                p = p + 1;
            } else {
                proof {
                    if targets.contains(k) {
                        assert(ks@.to_set().contains(k));
                        let q = choose|q: int| 0 <= q < ks@.len() && ks@[q] == k;
                        assert(es[pos[q]].0 == k);
                        if pos[q] < i {
                            assert(es[pos[q]].0 < es[i].0);
                        } else if pos[q] > i {
                            assert(es[i].0 < es[pos[q]].0);
                        }
                        assert(q >= p);
                        if q > p {
                            assert(pos[p as int] < pos[q]);
                        }
                    }
                }
            }
        }
        proof {
            assert(p == ks@.len()) by {
                if p < ks@.len() {
                    assert(pos[p as int] >= es.len());
                }
            }
            assert forall|q: int| #![trigger ks@[q]] 0 <= q < ks@.len() implies es[pos[q]].0 == ks@[q]
                && *final(es[pos[q]].1) == m[ks@[q]].with_note(*final(out@[q].0)) by {}
            assert forall|i: int| #![trigger es[i]] 0 <= i < es.len() implies {
                &&& final(es[i].1).order_id == m[es[i].0].order_id
                &&& final(es[i].1).timestamp == m[es[i].0].timestamp
                &&& final(es[i].1).trader_name@ == m[es[i].0].trader_name@
            } by {
                if targets.contains(es[i].0) {
                    assert(ks@.to_set().contains(es[i].0));
                    let q = choose|q: int| 0 <= q < ks@.len() && ks@[q] == es[i].0;
                    if pos[q] < i {
                        assert(es[pos[q]].0 < es[i].0);
                    } else if pos[q] > i {
                        assert(es[i].0 < es[pos[q]].0);
                    }
                }
            }
        }
        out
    }

    /// The order with this `order_id`, if one is stored.
    pub fn get_by_order_id(&self, key: &u32) -> (r: Option<&Order>)
        requires
            self.wf(),
        ensures
            match slot_of_order_id(self@, *key) {
                Some(k) => r is Some && *r.unwrap() == self@[k],
                None => r is None,
            },
    {
        match self.order_id_index.get(key) {
            Some(k) => {
                let r = order_slab_get(&self.store, *k);
                r
            },
            None => None,
        }
    }

    /// The order with this `timestamp`, if one is stored.
    pub fn get_by_timestamp(&self, key: &u64) -> (r: Option<&Order>)
        requires
            self.wf(),
        ensures
            match slot_of_timestamp(self@, *key) {
                Some(k) => r is Some && *r.unwrap() == self@[k],
                None => r is None,
            },
    {
        match self.timestamp_index.get(key) {
            Some(k) => {
                let r = order_slab_get(&self.store, *k);
                r
            },
            None => None,
        }
    }
}

impl Default for MultiIndexOrderMap {
    /// A map that stores nothing.
    fn default() -> (r: Self)
        ensures
            r.wf(),
            r@ == empty_slots(),
            r.free_keys() == seq![0usize],
    {
        MultiIndexOrderMap {
            store: order_slab_new(),
            order_id_index: HashMap::new(),
            timestamp_index: BTreeMap::new(),
            trader_name_index: StringHashMap::new(),
        }
    }
}

impl Clone for MultiIndexOrderMap {
    /// A map with the same orders in the same slots; the trader-name index
    /// is rebuilt from the copied slab.
    fn clone(&self) -> (r: Self)
        ensures
            r@ == self@,
            r.free_keys() == self.free_keys(),
            self.wf() ==> r.wf(),
    {
        let store = order_slab_clone(&self.store);
        let order_id_index = self.order_id_index.clone();
        let timestamp_index = self.timestamp_index.clone();
        let trader_name_index = trader_index_of(&store);
        let r = MultiIndexOrderMap { store, order_id_index, timestamp_index, trader_name_index };
        proof {
            if self.wf() {
                assert(r.order_id_index@ == self.order_id_index@);
                assert(r.timestamp_index@ == self.timestamp_index@);
            }
        }
        r
    }
}

/// The trader-name index of the orders in a slab.
fn trader_index_of(store: &Slab<Order>) -> (idx: StringHashMap<BTreeSet<usize>>)
    ensures
        forall|name: Seq<char>| #[trigger]
            idx@.contains_key(name) ==> idx@[name]@ == slots_of_trader(order_slots(*store), name)
                && idx@[name]@ != Set::<usize>::empty(),
        forall|k: usize| #[trigger]
            order_slots(*store).contains_key(k) ==> idx@.contains_key(order_slots(*store)[k].trader_name@),
{
    let ghost m = order_slots(*store);
    let entries = order_slab_entries(store);
    let ghost es = entries@;
    let mut idx: StringHashMap<BTreeSet<usize>> = StringHashMap::new();
    let mut p: usize = 0;
    proof {
        assert forall|name: Seq<char>| #[trigger] listed_slots_of_trader(m, es, 0, name) == Set::<
            usize,
        >::empty() by {
            assert(listed_slots_of_trader(m, es, 0, name) =~= Set::<usize>::empty());
        }
    }
    while p < entries.len()
        invariant
            m == order_slots(*store),
            es == entries@,
            lists_entries(m, es),
            0 <= p <= es.len(),
            forall|name: Seq<char>|
                idx@.contains_key(name) <==> #[trigger] listed_slots_of_trader(m, es, p as int, name)
                    != Set::<usize>::empty(),
            forall|name: Seq<char>| #[trigger]
                idx@.contains_key(name) ==> idx@[name]@ == listed_slots_of_trader(m, es, p as int, name),
        decreases es.len() - p,
    {
        let (k, o) = entries[p];
        let ghost old_idx = idx@;
        proof {
            assert(m.contains_key(es[p as int].0));
        }
        trader_add(&mut idx, &o.trader_name, k);
        proof {
            let n = o.trader_name@;
            assert forall|name: Seq<char>|
                idx@.contains_key(name) <==> #[trigger] listed_slots_of_trader(m, es, p + 1, name)
                    != Set::<usize>::empty() by {
                if name == n {
                    assert(listed_slots_of_trader(m, es, p + 1, name).contains(k));
                } else {
                    assert(listed_slots_of_trader(m, es, p + 1, name) =~= listed_slots_of_trader(
                        m,
                        es,
                        p as int,
                        name,
                    ));
                }
            }
            assert forall|name: Seq<char>| #[trigger]
                idx@.contains_key(name) implies idx@[name]@ == listed_slots_of_trader(m, es, p + 1, name) by {
                if name == n {
                    if !old_idx.contains_key(n) {
                        assert(listed_slots_of_trader(m, es, p as int, n) =~= Set::<usize>::empty());
                    }
                    assert(filed_under(old_idx, n) == listed_slots_of_trader(m, es, p as int, n));
                    assert(idx@[name]@ =~= listed_slots_of_trader(m, es, p + 1, name));
                } else {
                    assert(listed_slots_of_trader(m, es, p + 1, name) =~= listed_slots_of_trader(
                        m,
                        es,
                        p as int,
                        name,
                    ));
                }
            }
        }
        p = p + 1;
    }
    proof {
        assert forall|name: Seq<char>| #[trigger]
            listed_slots_of_trader(m, es, es.len() as int, name) == slots_of_trader(m, name) by {
            assert(listed_slots_of_trader(m, es, es.len() as int, name) =~= slots_of_trader(m, name));
        }
        assert forall|k: usize| #[trigger] m.contains_key(k) implies idx@.contains_key(m[k].trader_name@) by {
            assert(slots_of_trader(m, m[k].trader_name@).contains(k));
            assert(listed_slots_of_trader(m, es, es.len() as int, m[k].trader_name@) == slots_of_trader(
                m,
                m[k].trader_name@,
            ));
        }
    }
    idx
}

} // verus!
