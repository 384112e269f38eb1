//! The order directory: a map from order identifier to the resting order's
//! mutable fields, with constant-time lookup, insert and delete.

use vstd::prelude::*;

use std::collections::HashMap;

use crate::models::LimitOrder;

verus! {

broadcast use vstd::std_specs::hash::group_hash_axioms;

/// The order directory. Its view is the map from order identifier to resting
/// order that the contracts of the order book speak of.
#[derive(Debug)]
pub struct OrderArena {
    order_map: HashMap<u64, LimitOrder>,
}

impl View for OrderArena {
    type V = Map<u64, LimitOrder>;

    closed spec fn view(&self) -> Map<u64, LimitOrder> {
        self.order_map@
    }
}

impl OrderArena {
    /// Create an empty directory; `capacity` entries are pre-allocated.
    pub fn new(capacity: usize) -> (r: Self)
        ensures
            r@ == Map::<u64, LimitOrder>::empty(),
    {
        OrderArena { order_map: HashMap::with_capacity(capacity) }
    }

    /// Look up the resting order with the given identifier.
    pub fn get(&self, id: u64) -> (r: Option<&LimitOrder>)
        ensures
            match r {
                Some(order) => self@.contains_key(id) && *order == self@[id],
                None => !self@.contains_key(id),
            },
    {
        self.order_map.get(&id)
    }

    /// Look up the identifier, price and remaining quantity of the resting
    /// order with the given identifier.
    pub fn get_full(&self, id: u64) -> (r: Option<(u64, u64, u64)>)
        ensures
            match r {
                Some(t) => self@.contains_key(id) && t == (self@[id].id, self@[id].price, self@[id].qty),
                None => !self@.contains_key(id),
            },
    {
        match self.order_map.get(&id) {
            Some(order) => Some((order.id, order.price, order.qty)),
            None => None,
        }
    }

    /// Insert a resting order, overwriting any order with the same
    /// identifier.
    pub fn insert(&mut self, id: u64, user_id: u64, price: u64, qty: u64)
        ensures
            final(self)@ == old(self)@.insert(id, LimitOrder { user_id, id, qty, price }),
    {
        self.order_map.insert(id, LimitOrder { user_id, id, qty, price });
    }

    /// Delete the order with the given identifier; return whether it was
    /// present. Deleting an absent identifier leaves the directory unchanged.
    pub fn delete(&mut self, id: &u64) -> (r: bool)
        ensures
            final(self)@ == old(self)@.remove(*id),
            r == old(self)@.contains_key(*id),
    {
        match self.order_map.remove(id) {
            Some(_) => true,
            None => false,
        }
    }
}

} // verus!
