//! The error a multi-index map gives back when an element would break a
//! uniqueness constraint.

use vstd::prelude::*;

verus! {

/// Handed back by `try_insert` when a unique field of the element is already
/// taken; it carries the element that was refused.
#[derive(Debug)]
pub struct UniquenessError<T>(pub T);

} // verus!
