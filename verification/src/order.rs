//! The order record kept by `MultiIndexOrderMap`.

use vstd::prelude::*;

verus! {

/// An order: unique `order_id`, unique `timestamp`, a `trader_name` shared by
/// any number of orders, and a free-form `note` that no index looks at.
#[derive(Clone, Debug)]
pub struct Order {
    pub order_id: u32,
    pub timestamp: u64,
    pub trader_name: String,
    pub note: String,
}

impl Order {
    /// The same order with its note replaced.
    pub open spec fn with_note(self, note: String) -> Order {
        Order { note: note, ..self }
    }
}

} // verus!
