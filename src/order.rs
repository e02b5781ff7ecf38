use vstd::prelude::*;

verus! {

/// One resting or incoming order.
///
/// `price` is an order-preserving key for the limit price: one price is
/// better or worse than another exactly as its key is larger or smaller.
/// `cluster_size` is the minimum incoming quantity this order accepts
/// being matched against.
#[derive(Clone, Copy, Debug, PartialEq, Eq, Structural)]
pub struct Order {
    pub id: u64,
    pub is_buy: bool,
    pub price: u64,
    pub quantity: u64,
    pub cluster_size: u64,
}

impl Order {
    /// Creates an order from its fields.
    pub fn new(id: u64, is_buy: bool, price: u64, quantity: u64, cluster_size: u64) -> (r: Self)
        ensures
            r == (Order { id, is_buy, price, quantity, cluster_size }),
    {
        Order { id, is_buy, price, quantity, cluster_size }
    }
}

} // verus!
