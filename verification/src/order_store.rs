//! The slab of orders behind `MultiIndexOrderMap`, reached through the
//! `slab` crate that `multi_index_map` re-exports.
//!
//! Every function here is trusted: its body calls one method of
//! `multi_index_map::slab::Slab<Order>` and its contract restates what the
//! slab's source shows, over `order_slots`, the map from occupied slot keys to
//! the orders stored there.

use vstd::prelude::*;
use crate::keys::after_insert;
use crate::keys::ends_vacant;
use crate::keys::rebuilt_free_keys;
use multi_index_map::slab::Slab;
use crate::order::Order;

verus! {

/// The most elements a store may hold: far below the point where the slab's
/// backing vector would exceed `isize::MAX` bytes and panic.
pub const MAX_STORED: usize = usize::MAX / 256;

/// The contents of a slab with every slot vacant.
pub open spec fn empty_slots() -> Map<usize, Order> {
    Map::empty()
}

/// What a slab of orders holds: each occupied slot key and its order.
pub uninterp spec fn order_slots(s: Slab<Order>) -> Map<usize, Order>;

/// The keys that a slab's inserts hand out next, in that order: its vacant
/// slots as its vacancy list links them (from its `next` field on), then the
/// length of its entry vector, where it grows.
pub uninterp spec fn order_free_keys(s: Slab<Order>) -> Seq<usize>;

/// How many entries a slab's entry vector has room for, as `Slab::capacity`
/// reports it: a function of the slab itself, which holds its vector's
/// capacity.
pub uninterp spec fn order_room(s: Slab<Order>) -> nat;

/// `Slab::new`: a slab with no occupied slot.
#[verifier::external_body]
pub(crate) fn order_slab_new() -> (res: Slab<Order>)
    ensures
        order_slots(res) == empty_slots(),
        order_free_keys(res) == seq![0usize],
{
    Slab::new()
}

/// `Slab::with_capacity`: a slab with no occupied slot (only its allocation
/// differs from `Slab::new`). Its vector panics when the room asked for
/// passes `isize::MAX` bytes, which the bound rules out.
#[verifier::external_body]
pub(crate) fn order_slab_with_capacity(n: usize) -> (res: Slab<Order>)
    requires
        n <= MAX_STORED,
    ensures
        order_room(res) >= n,
        order_slots(res) == empty_slots(),
        order_free_keys(res) == seq![0usize],
{
    Slab::with_capacity(n)
}

/// `Slab::capacity`: the room of the slab's entry vector, which always has
/// room for at least the occupied slots.
#[verifier::external_body]
pub(crate) fn order_slab_capacity(s: &Slab<Order>) -> (c: usize)
    ensures
        c == order_room(*s),
        order_slots(*s).dom().finite() ==> c >= order_slots(*s).len(),
{
    s.capacity()
}

/// `Slab::len`: the number of occupied slots.
#[verifier::external_body]
pub(crate) fn order_slab_len(s: &Slab<Order>) -> (n: usize)
    ensures
        n == order_slots(*s).len(),
{
    s.len()
}

/// `Slab::is_empty`: whether no slot is occupied.
#[verifier::external_body]
pub(crate) fn order_slab_is_empty(s: &Slab<Order>) -> (b: bool)
    ensures
        b == (order_slots(*s).dom() == Set::<usize>::empty()),
{
    s.is_empty()
}

/// `Slab::reserve`: grows the allocation, keeps every slot. It panics only
/// when the needed bytes pass `isize::MAX`, which the bound rules out.
#[verifier::external_body]
pub(crate) fn order_slab_reserve(s: &mut Slab<Order>, additional: usize)
    requires
        order_slots(*old(s)).len() + additional <= MAX_STORED,
    ensures
        order_slots(*final(s)) == order_slots(*old(s)),
        order_free_keys(*final(s)) == order_free_keys(*old(s)),
        order_room(*final(s)) >= order_slots(*old(s)).len() + additional,
{
    s.reserve(additional)
}

/// `Slab::shrink_to_fit`: drops spare allocation, keeps every slot. When its
/// entry vector ends in vacant entries it drops them and rebuilds its vacancy
/// list in increasing key order; otherwise the list stays as it is.
#[verifier::external_body]
pub(crate) fn order_slab_shrink_to_fit(s: &mut Slab<Order>)
    ensures
        order_slots(*final(s)) == order_slots(*old(s)),
        !ends_vacant(order_slots(*old(s)).dom(), order_free_keys(*old(s))) ==> order_free_keys(*final(s)) == order_free_keys(*old(s)),
        ends_vacant(order_slots(*old(s)).dom(), order_free_keys(*old(s))) ==> rebuilt_free_keys(
            order_slots(*old(s)).dom(),
            order_free_keys(*final(s)),
        ),
        order_room(*final(s)) >= order_slots(*old(s)).len(),
{
    s.shrink_to_fit()
}

/// `Slab::insert`: stores the order in the slot its `next` field names and
/// returns that key: the head of its vacancy list, or, when no slot is vacant,
/// the end of its entry vector, which then grows by one.
#[verifier::external_body]
pub(crate) fn order_slab_insert(s: &mut Slab<Order>, val: Order) -> (k: usize)
    requires
        order_slots(*old(s)).len() < MAX_STORED,
    ensures
        !order_slots(*old(s)).contains_key(k),
        k == order_free_keys(*old(s))[0],
        order_slots(*final(s)) == order_slots(*old(s)).insert(k, val),
        order_free_keys(*final(s)) == after_insert(order_free_keys(*old(s))),
        order_room(*final(s)) >= order_room(*old(s)),
{
    s.insert(val)
}

/// `Slab::remove`: takes the order out of an occupied slot and puts its key
/// at the head of the vacancy list (the slab panics on a vacant key, which
/// the precondition rules out).
#[verifier::external_body]
pub(crate) fn order_slab_remove(s: &mut Slab<Order>, k: usize) -> (v: Order)
    requires
        order_slots(*old(s)).contains_key(k),
    ensures
        v == order_slots(*old(s))[k],
        order_slots(*final(s)) == order_slots(*old(s)).remove(k),
        order_free_keys(*final(s)) == seq![k] + order_free_keys(*old(s)),
        order_room(*final(s)) == order_room(*old(s)),
{
    s.remove(k)
}

/// `Slab::get`: the order in slot `k`, if that slot is occupied.
#[verifier::external_body]
pub(crate) fn order_slab_get(s: &Slab<Order>, k: usize) -> (r: Option<&Order>)
    ensures
        match r {
            Some(v) => order_slots(*s).contains_key(k) && *v == order_slots(*s)[k],
            None => !order_slots(*s).contains_key(k),
        },
{
    s.get(k)
}

/// `Slab`'s `Index`: the order in an occupied slot (indexing a vacant slot
/// panics, which the precondition rules out).
#[verifier::external_body]
pub(crate) fn order_slab_index(s: &Slab<Order>, k: usize) -> (r: &Order)
    requires
        order_slots(*s).contains_key(k),
    ensures
        *r == order_slots(*s)[k],
{
    &s[k]
}

/// `Slab`'s `IndexMut`: a mutable borrow of the order in an occupied slot
/// (a vacant slot panics, which the precondition rules out); whatever is
/// written through it is what the slot holds afterwards.
#[verifier::external_body]
pub(crate) fn order_slab_index_mut(s: &mut Slab<Order>, k: usize) -> (r: &mut Order)
    requires
        order_slots(*old(s)).contains_key(k),
    ensures
        *r == order_slots(*old(s))[k],
        order_slots(*final(s)) == order_slots(*old(s)).insert(k, *final(r)),
        order_free_keys(*final(s)) == order_free_keys(*old(s)),
        order_room(*final(s)) == order_room(*old(s)),
{
    &mut s[k]
}

/// `Slab::clear`: vacates every slot and empties the entry vector, so the
/// next key handed out is 0.
#[verifier::external_body]
pub(crate) fn order_slab_clear(s: &mut Slab<Order>)
    ensures
        order_slots(*final(s)) == empty_slots(),
        order_free_keys(*final(s)) == seq![0usize],
        order_room(*final(s)) == order_room(*old(s)),
{
    s.clear()
}

/// `Slab::iter`, collected: every occupied slot with its order, in
/// increasing key order (the slab walks its entry vector front to back).
#[verifier::external_body]
pub(crate) fn order_slab_entries<'a>(s: &'a Slab<Order>) -> (v: Vec<(usize, &'a Order)>)
    ensures
        forall|i: int, j: int| 0 <= i < j < v@.len() ==> v@[i].0 < v@[j].0,
        forall|i: int|
            0 <= i < v@.len() ==> order_slots(*s).contains_key(#[trigger] v@[i].0) && *v@[i].1
                == order_slots(*s)[v@[i].0],
        forall|k: usize|
            order_slots(*s).contains_key(k) ==> exists|i: int| 0 <= i < v@.len() && #[trigger] v@[i].0 == k,
{
    s.iter().collect()
}

/// `Slab::iter_mut`, collected: every occupied slot with a mutable borrow
/// of its order, in increasing key order; no slot comes or goes while the
/// borrows live, and what each borrow holds at its end is what its slot
/// holds afterwards.
#[verifier::external_body]
pub(crate) fn order_slab_entries_mut<'a>(s: &'a mut Slab<Order>) -> (v: Vec<(usize, &'a mut Order)>)
    ensures
        forall|i: int, j: int| 0 <= i < j < v@.len() ==> v@[i].0 < v@[j].0,
        forall|i: int|
            0 <= i < v@.len() ==> order_slots(*old(s)).contains_key(#[trigger] v@[i].0) && *v@[i].1
                == order_slots(*old(s))[v@[i].0],
        forall|k: usize|
            order_slots(*old(s)).contains_key(k) ==> exists|i: int| 0 <= i < v@.len() && #[trigger] v@[i].0 == k,
        order_slots(*final(s)).dom() == order_slots(*old(s)).dom(),
        order_free_keys(*final(s)) == order_free_keys(*old(s)),
        order_room(*final(s)) == order_room(*old(s)),
        forall|i: int| 0 <= i < v@.len() ==> order_slots(*final(s))[#[trigger] v@[i].0] == *final(v@[i].1),
{
    s.iter_mut().collect()
}

/// `Slab::clone`: a slab with the same slots and the same vacancy list; each
/// order is cloned field by field, and a cloned `String` equals its source.
#[verifier::external_body]
pub(crate) fn order_slab_clone(s: &Slab<Order>) -> (r: Slab<Order>)
    ensures
        order_slots(r) == order_slots(*s),
        order_free_keys(r) == order_free_keys(*s),
{
    s.clone()
}

} // verus!
