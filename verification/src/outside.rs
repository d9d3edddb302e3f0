//! Declarations of the outside types that flow through the library.

use vstd::prelude::*;
use multi_index_map::slab::Slab;
use std::collections::HashMap;
use std::hash::Hash;

verus! {

/// The slab that backs every multi-index map: `multi_index_map::slab::Slab`.
#[verifier::external_type_specification]
#[verifier::external_body]
#[verifier::reject_recursive_types(T)]
pub struct ExSlab<T>(Slab<T>);

/// `tokio::sync::RwLock`, which guards each agent's state.
#[verifier::external_type_specification]
#[verifier::external_body]
#[verifier::reject_recursive_types(T)]
pub struct ExRwLock<T: ?Sized>(tokio::sync::RwLock<T>);

/// `tokio::sync::mpsc::Sender`, through which an agent is sent activities.
#[verifier::external_type_specification]
#[verifier::external_body]
#[verifier::reject_recursive_types(T)]
pub struct ExMpscSender<T>(tokio::sync::mpsc::Sender<T>);

/// `tokio::sync::oneshot::Sender`, which stops an agent's task.
#[verifier::external_type_specification]
#[verifier::external_body]
#[verifier::reject_recursive_types(T)]
pub struct ExOneshotSender<T>(tokio::sync::oneshot::Sender<T>);

/// `anyhow::Error`, the error a stopped task reports.
#[verifier::external_type_specification]
#[verifier::external_body]
pub struct ExAnyhowError(anyhow::Error);

/// `HashMap::shrink_to_fit`: gives back spare room; the entries stay as
/// they are.
#[verifier::external_body]
pub(crate) fn hash_map_shrink_to_fit<K: Eq + Hash, V>(m: &mut HashMap<K, V>)
    ensures
        final(m)@ == old(m)@,
{
    m.shrink_to_fit()
}

} // verus!
