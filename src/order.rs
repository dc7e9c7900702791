use vstd::prelude::*;

verus! {

/// Which side of the book an order belongs to.
#[derive(Clone, Copy, PartialEq, Eq, Structural, Debug)]
pub enum Side {
    Buy,
    Sell,
}

/// A limit order: a price in ticks, a resident size in lots, a caller-assigned
/// identity and a side.
#[derive(Clone, Copy, Debug)]
pub struct Order {
    pub price: u64,
    pub size: u64,
    pub id: i64,
    pub side: Side,
}

impl Order {
    pub fn new(price: u64, size: u64, id: i64, side: Side) -> (r: Order)
        ensures
            r == (Order { price, size, id, side }),
    {
        Order { price, size, id, side }
    }
}

} // verus!
