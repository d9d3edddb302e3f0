//! Sets of slot keys and the ascending sequences that list them.

use vstd::prelude::*;
use std::collections::BTreeSet;
use vstd::std_specs::iter::IteratorSpec;
use vstd::std_specs::cmp::OrdSpec;
use crate::order_store::MAX_STORED;

verus! {

broadcast use vstd::std_specs::btree::group_btree_axioms;

/// `ks` lists the keys of `s`, each once, in strictly increasing order.
pub open spec fn lists_ascending(ks: Seq<usize>, s: Set<usize>) -> bool {
    &&& ks.to_set() == s
    &&& forall|i: int, j: int| 0 <= i < j < ks.len() ==> ks[i] < ks[j]
}

/// The keys among the first `n` entries of `ks`.
pub open spec fn first_keys(ks: Seq<usize>, n: int) -> Set<usize> {
    Set::new(|k: usize| exists|j: int| 0 <= j < n && ks[j] == k)
}

/// The keys of a `BTreeSet`, ascending.
pub fn ascending_keys(s: &BTreeSet<usize>) -> (out: Vec<usize>)
    ensures
        lists_ascending(out@, s@),
        out@.len() == s@.len(),
{
    let mut out: Vec<usize> = Vec::new();
    let ghost full = vstd::std_specs::btree::spec_btree_keys_iter(s).remaining();
    for k in it: s.iter()
        invariant
            it.seq() == full,
            out@ == full.take(it.index()).map_values(|r: &usize| *r),
    {
        out.push(*k);
    }
    assert(out@ == full.map_values(|r: &usize| *r));
    proof {
        assert(full.unref().to_set() == s@);
        assert(full.unref() == out@);
        broadcast use vstd::laws_cmp::group_laws_cmp;

        assert(vstd::std_specs::btree::increasing_seq(full));
        assert forall|i: int, j: int| 0 <= i < j < out@.len() implies out@[i] < out@[j] by {
            assert(OrdSpec::cmp_spec(&full[i], &full[j]) is Less);
        }
    }
    out
}

/// The keys a slab hands out once it has handed out `f[0]`: the rest of its
/// vacancy list, or, when `f[0]` was the end of its entry vector, the key
/// after it.
pub open spec fn after_insert(f: Seq<usize>) -> Seq<usize> {
    if f.len() <= 1 {
        seq![(f[0] + 1) as usize]
    } else {
        f.drop_first()
    }
}

/// `f` may be the keys that a slab whose occupied keys are `dom` hands out
/// next: distinct vacant keys, ending with the end of the entry vector, which
/// lies past every occupied key; every key below that end is occupied or
/// listed; and the end stays within the store's bound.
pub open spec fn free_keys_ok(dom: Set<usize>, f: Seq<usize>) -> bool {
    &&& f.len() >= 1
    &&& f.no_duplicates()
    &&& forall|i: int| 0 <= i < f.len() ==> !dom.contains(#[trigger] f[i])
    &&& forall|i: int| 0 <= i < f.len() - 1 ==> #[trigger] f[i] < f.last()
    &&& forall|k: usize| #[trigger] dom.contains(k) ==> k < f.last()
    &&& forall|k: usize| k < f.last() ==> #[trigger] dom.contains(k) || f.contains(k)
    &&& f.last() <= MAX_STORED
}

/// The entry vector, whose end is `f.last()`, ends in a vacant entry.
pub open spec fn ends_vacant(dom: Set<usize>, f: Seq<usize>) -> bool {
    f.last() > 0 && !dom.contains((f.last() - 1) as usize)
}

/// `f` is the vacancy list a slab rebuilds after dropping the vacant entries
/// at the end of its entry vector: every vacant key below the new end in
/// increasing order, then that end, one past the largest occupied key (0 when
/// none is occupied).
pub open spec fn rebuilt_free_keys(dom: Set<usize>, f: Seq<usize>) -> bool {
    &&& f.len() >= 1
    &&& forall|i: int, j: int| 0 <= i < j < f.len() ==> f[i] < f[j]
    &&& forall|k: usize| #[trigger] dom.contains(k) ==> k < f.last()
    &&& f.last() == 0 || dom.contains((f.last() - 1) as usize)
    &&& forall|k: usize| k < f.last() ==> (#[trigger] dom.contains(k) <==> !f.contains(k))
}

/// The keys below `n`.
spec fn keys_below(n: usize) -> Set<usize> {
    Set::new(|k: usize| k < n)
}

/// There are `n` keys below `n`.
proof fn lemma_keys_below(n: usize)
    ensures
        keys_below(n).finite(),
        keys_below(n).len() == n,
    decreases n,
{
    if n == 0 {
        assert(keys_below(0) =~= Set::<usize>::empty());
    } else {
        let m = (n - 1) as usize;
        lemma_keys_below(m);
        assert(keys_below(n) =~= keys_below(m).insert(m));
    }
}

/// Handing out the first key keeps the list well formed for the slab that
/// now holds that key as well.
pub proof fn lemma_free_after_insert(dom: Set<usize>, f: Seq<usize>)
    requires
        free_keys_ok(dom, f),
        dom.finite(),
        dom.len() < MAX_STORED,
    ensures
        !dom.contains(f[0]),
        free_keys_ok(dom.insert(f[0]), after_insert(f)),
{
    let k = f[0];
    let d2 = dom.insert(k);
    let f2 = after_insert(f);
    assert(!dom.contains(f[0]));
    if f.len() == 1 {
        assert(f.last() == k);
        assert forall|j: usize| j < k implies dom.contains(j) by {
            if !dom.contains(j) {
                assert(f.contains(j));
                let i = choose|i: int| 0 <= i < f.len() && f[i] == j;
            }
        }
        lemma_keys_below(k);
        assert(keys_below(k).subset_of(dom));
        vstd::set_lib::lemma_len_subset(keys_below(k), dom);
        assert(f2 =~= seq![(k + 1) as usize]);
        assert(f2.last() == k + 1);
        assert forall|j: usize| j < f2.last() implies #[trigger] d2.contains(j) || f2.contains(j) by {
            if j < k {
                assert(dom.contains(j));
            }
        }
    } else {
        assert(f2 =~= f.drop_first());
        assert(f2.last() == f.last());
        assert forall|i: int| 0 <= i < f2.len() implies !d2.contains(#[trigger] f2[i]) by {
            assert(f2[i] == f[i + 1]);
        }
        assert forall|i: int| 0 <= i < f2.len() - 1 implies #[trigger] f2[i] < f2.last() by {
            assert(f2[i] == f[i + 1]);
        }
        assert forall|j: usize| #[trigger] d2.contains(j) implies j < f2.last() by {
            if j == k {
                assert(f[0] < f.last());
            }
        }
        assert forall|j: usize| j < f2.last() implies #[trigger] d2.contains(j) || f2.contains(j) by {
            if !d2.contains(j) {
                assert(f.contains(j));
                let i = choose|i: int| 0 <= i < f.len() && f[i] == j;
                assert(i != 0);
                assert(f2[i - 1] == j);
            }
        }
    }
}

/// Freeing an occupied key puts it at the head of a list that stays well
/// formed.
pub proof fn lemma_free_after_remove(dom: Set<usize>, f: Seq<usize>, k: usize)
    requires
        free_keys_ok(dom, f),
        dom.contains(k),
    ensures
        free_keys_ok(dom.remove(k), seq![k] + f),
{
    let d2 = dom.remove(k);
    let f2 = seq![k] + f;
    assert(f2.last() == f.last());
    assert forall|i: int| 0 <= i < f2.len() implies !d2.contains(#[trigger] f2[i]) by {
        if i > 0 {
            assert(f2[i] == f[i - 1]);
        }
    }
    assert forall|i: int| 0 <= i < f2.len() - 1 implies #[trigger] f2[i] < f2.last() by {
        if i > 0 {
            assert(f2[i] == f[i - 1]);
        }
    }
    assert(f2.no_duplicates()) by {
        assert forall|a: int, b: int| 0 <= a < b < f2.len() implies f2[a] != f2[b] by {
            assert(f2[b] == f[b - 1]);
            if a > 0 {
                assert(f2[a] == f[a - 1]);
            }
        }
    }
    assert forall|j: usize| j < f2.last() implies #[trigger] d2.contains(j) || f2.contains(j) by {
        if j == k {
            assert(f2[0] == k);
        } else if !dom.contains(j) {
            assert(f.contains(j));
            let i = choose|i: int| 0 <= i < f.len() && f[i] == j;
            assert(f2[i + 1] == j);
        }
    }
}

/// Whatever `shrink_to_fit` leaves of a well formed list is well formed.
pub proof fn lemma_free_after_shrink(dom: Set<usize>, f: Seq<usize>, f2: Seq<usize>)
    requires
        free_keys_ok(dom, f),
        !ends_vacant(dom, f) ==> f2 == f,
        ends_vacant(dom, f) ==> rebuilt_free_keys(dom, f2),
    ensures
        free_keys_ok(dom, f2),
{
    if ends_vacant(dom, f) {
        assert(f2.last() <= f.last()) by {
            if f2.last() > 0 {
                assert(dom.contains((f2.last() - 1) as usize));
            }
        }
        assert forall|i: int| 0 <= i < f2.len() implies !dom.contains(#[trigger] f2[i]) by {
            if i < f2.len() - 1 {
                assert(f2[i] < f2.last());
                assert(f2.contains(f2[i]));
            }
        }
        assert forall|i: int| 0 <= i < f2.len() - 1 implies #[trigger] f2[i] < f2.last() by {}
        assert forall|j: usize| j < f2.last() implies #[trigger] dom.contains(j) || f2.contains(j) by {}
    }
}

} // verus!
