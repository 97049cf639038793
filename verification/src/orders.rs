//! Orders as the engine receives them.
use vstd::prelude::*;
use crate::decimal::{Decimal, zero_view};

verus! {

/// What an order asks for: to enter the book, or to cancel an earlier order.
#[derive(Clone, Copy, PartialEq, Eq, Structural, Debug)]
pub enum TypeOp {
    Create,
    Delete,
}

/// The side of the book an order belongs to.
#[derive(Clone, Copy, PartialEq, Eq, Structural, Debug)]
pub enum Side {
    Buy,
    Sell,
}

impl Default for Side {
    fn default() -> (r: Side)
        ensures
            r == Side::Buy,
    {
        Side::Buy
    }
}

impl Default for TypeOp {
    fn default() -> (r: TypeOp)
        ensures
            r == TypeOp::Create,
    {
        TypeOp::Create
    }
}

/// A limit order: `amount` units of `pair` to buy or sell at `limit_price` or better.
#[derive(Debug, PartialEq)]
pub struct Order {
    pub type_op: TypeOp,
    pub account_id: u64,
    pub amount: Decimal,
    pub order_id: u64,
    pub pair: String,
    pub limit_price: Decimal,
    pub side: Side,
}

impl Clone for Order {
    fn clone(&self) -> (r: Order)
        ensures
            r == *self,
    {
        Order {
            type_op: self.type_op,
            account_id: self.account_id,
            amount: self.amount,
            order_id: self.order_id,
            pair: self.pair.clone(),
            limit_price: self.limit_price,
            side: self.side,
        }
    }
}

impl Default for Order {
    /// A `Create` buy order with every number zero and an empty pair.
    fn default() -> (r: Order)
        ensures
            r.type_op == TypeOp::Create,
            r.account_id == 0,
            r.amount@ == zero_view(),
            r.order_id == 0,
            r.pair@ == Seq::<char>::empty(),
            r.limit_price@ == zero_view(),
            r.side == Side::Buy,
    {
        Order {
            type_op: TypeOp::Create,
            account_id: 0,
            amount: Decimal::zero(),
            order_id: 0,
            pair: String::new(),
            limit_price: Decimal::zero(),
            side: Side::Buy,
        }
    }
}


/// The largest order id among the orders, 0 when there are none. New orders
/// are numbered from the one after it.
pub fn highest_order_id(orders: &Vec<Order>) -> (r: u64)
    ensures
        forall|i: int| 0 <= i < orders@.len() ==> (#[trigger] orders@[i]).order_id <= r,
        orders@.len() == 0 ==> r == 0,
        orders@.len() > 0 ==> exists|i: int| 0 <= i < orders@.len() && (#[trigger] orders@[i]).order_id == r,
{
    let mut r: u64 = 0;
    let mut i: usize = 0;
    while i < orders.len()
        invariant
            0 <= i <= orders@.len(),
            forall|j: int| 0 <= j < i ==> (#[trigger] orders@[j]).order_id <= r,
            i == 0 ==> r == 0,
            i > 0 ==> exists|j: int| 0 <= j < i && (#[trigger] orders@[j]).order_id == r,
        decreases orders@.len() - i,
    {
        if orders[i].order_id > r || i == 0 {
            r = orders[i].order_id;
        }
        i = i + 1;
    }
    r
}

} // verus!
