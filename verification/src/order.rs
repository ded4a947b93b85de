//! Order value types.

use std::cmp::Ordering;
use std::marker::PhantomData;
use vstd::prelude::*;
use vstd::std_specs::cmp::{PartialEqSpecImpl, PartialOrdSpecImpl};
use vstd::std_specs::convert::FromSpecImpl;

verus! {

/// The side of the book an order belongs to.
#[derive(Debug, Clone, Copy, PartialEq, Eq, Structural)]
pub enum OrderSide {
    Buy,
    Sell,
}

/// What becomes of the part of an incoming order that finds no match.
#[derive(Debug, Clone, Copy, PartialEq, Eq, Structural)]
pub enum OrderKind {
    /// What is left rests in the book.
    Limit,
    /// The order trades in full or not at all.
    FillOrKill,
    /// What is left is given up.
    ImmediateOrCancel,
}

/// A side of the book as a type: the side of a queue and of the orders in it.
pub trait Direction: Clone {
    /// The side that orders of this side trade with.
    type Other;

    const SIDE: OrderSide;
}

/// The bid side. Only the type is of use; its one value stands for nothing.
#[derive(Clone, Copy, Debug)]
pub enum Buy {
    Side,
}

/// The ask side. Only the type is of use; its one value stands for nothing.
#[derive(Clone, Copy, Debug)]
pub enum Sell {
    Side,
}

impl Direction for Buy {
    type Other = Sell;

    const SIDE: OrderSide = OrderSide::Buy;
}

impl Direction for Sell {
    type Other = Buy;

    const SIDE: OrderSide = OrderSide::Sell;
}

/// The side of each of the two side types.
pub proof fn lemma_sides()
    ensures
        <Buy as Direction>::SIDE == OrderSide::Buy,
        <Sell as Direction>::SIDE == OrderSide::Sell,
{
}

/// An order on side `D`: one that rests in that side's queue, or one that came in
/// for that side and is being matched.
#[derive(Debug)]
pub struct Order<D> {
    pub price_limit: u64,
    pub size: u64,
    pub user_id: u64,
    pub _marker: PhantomData<D>,
}

impl<D> Order<D> {
    /// The order with `size` left to trade.
    pub open spec fn with_size(self, size: u64) -> Order<D> {
        Order { size, ..self }
    }
}

impl<D> Clone for Order<D> {
    fn clone(&self) -> (copy: Self)
        ensures
            copy == *self,
    {
        Order {
            price_limit: self.price_limit,
            size: self.size,
            user_id: self.user_id,
            _marker: PhantomData,
        }
    }
}

impl<D: Direction> Direction for Order<D> {
    type Other = D::Other;

    const SIDE: OrderSide = D::SIDE;
}

/// An order as it is submitted.
#[derive(Debug, Clone, Copy, PartialEq, Eq, Structural)]
pub struct IncomingOrder {
    pub price_limit: u64,
    pub size: u64,
    pub user_id: u64,
    pub kind: OrderKind,
    pub side: OrderSide,
}

/// What the reading of an order from text fails with: the line describes no
/// order.
#[derive(Debug, Clone, Copy, PartialEq, Eq, Structural)]
pub struct IncomingOrderParseError;

impl IncomingOrder {
    /// The order with `size` in place of its own.
    pub open spec fn with_size(self, size: u64) -> IncomingOrder {
        IncomingOrder { size, ..self }
    }

    /// The order as one of side `D`, without its kind.
    pub open spec fn on_side<D>(self) -> Order<D> {
        Order {
            price_limit: self.price_limit,
            size: self.size,
            user_id: self.user_id,
            _marker: PhantomData,
        }
    }
}

/// An incoming order on its side.
pub enum TaggedOrder {
    Buy(Order<Buy>),
    Sell(Order<Sell>),
}

impl TaggedOrder {
    /// The size of the order, whichever side it is on.
    pub open spec fn spec_size(&self) -> u64 {
        match self {
            TaggedOrder::Buy(order) => order.size,
            TaggedOrder::Sell(order) => order.size,
        }
    }

    #[verifier::when_used_as_spec(spec_size)]
    pub fn size(&self) -> (size: u64)
        ensures
            size == self.spec_size(),
    {
        match self {
            TaggedOrder::Buy(order) => order.size,
            TaggedOrder::Sell(order) => order.size,
        }
    }
}

impl From<IncomingOrder> for TaggedOrder {
    fn from(order: IncomingOrder) -> (tagged: Self) {
        match order.side {
            OrderSide::Buy => TaggedOrder::Buy(
                Order {
                    price_limit: order.price_limit,
                    size: order.size,
                    user_id: order.user_id,
                    _marker: PhantomData,
                },
            ),
            OrderSide::Sell => TaggedOrder::Sell(
                Order {
                    price_limit: order.price_limit,
                    size: order.size,
                    user_id: order.user_id,
                    _marker: PhantomData,
                },
            ),
        }
    }
}

impl FromSpecImpl<IncomingOrder> for TaggedOrder {
    open spec fn obeys_from_spec() -> bool {
        true
    }

    open spec fn from_spec(order: IncomingOrder) -> Self {
        match order.side {
            OrderSide::Buy => TaggedOrder::Buy(order.on_side()),
            OrderSide::Sell => TaggedOrder::Sell(order.on_side()),
        }
    }
}

impl<D: Direction> Order<D> {
    /// Whether this order trades with an order of the other side that is limited
    /// to `price`: a bid with an ask that asks no more than the bid offers, an ask
    /// with a bid that offers no less than the ask asks.
    pub open spec fn accepts(self, price: u64) -> bool {
        match D::SIDE {
            OrderSide::Buy => price <= self.price_limit,
            OrderSide::Sell => price >= self.price_limit,
        }
    }

    /// Whether the prices of this order and of `other`, an order of the other
    /// side, allow a trade between them.
    pub fn price_matches(&self, other: &Order<D::Other>) -> (matches: bool)
        ensures
            matches == self.accepts(other.price_limit),
    {
        match D::SIDE {
            OrderSide::Buy => other.price_limit <= self.price_limit,
            OrderSide::Sell => other.price_limit >= self.price_limit,
        }
    }

    /// The order as a limit order that would come in for its side.
    pub open spec fn spec_to_incoming(&self) -> IncomingOrder {
        IncomingOrder {
            price_limit: self.price_limit,
            size: self.size,
            user_id: self.user_id,
            kind: OrderKind::Limit,
            side: D::SIDE,
        }
    }

    #[verifier::when_used_as_spec(spec_to_incoming)]
    pub fn to_incoming(&self) -> (incoming: IncomingOrder)
        ensures
            incoming == self.spec_to_incoming(),
    {
        IncomingOrder {
            price_limit: self.price_limit,
            size: self.size,
            user_id: self.user_id,
            kind: OrderKind::Limit,
            side: D::SIDE,
        }
    }
}

impl<D: Direction> PartialEq for Order<D> {
    /// Orders of one side are equal where their prices are.
    fn eq(&self, other: &Order<D>) -> (equal: bool) {
        self.price_limit == other.price_limit
    }
}

impl<D: Direction> PartialEqSpecImpl for Order<D> {
    open spec fn obeys_eq_spec() -> bool {
        true
    }

    open spec fn eq_spec(&self, other: &Order<D>) -> bool {
        self.price_limit == other.price_limit
    }
}

impl<D: Direction> PartialOrd for Order<D> {
    /// Orders of one side compare by price, the better price being the lesser: for
    /// bids the higher, for asks the lower.
    fn partial_cmp(&self, other: &Self) -> (order: Option<Ordering>) {
        let order = if self.price_limit == other.price_limit {
            Ordering::Equal
        } else {
            let other_is_better = match D::SIDE {
                OrderSide::Buy => other.price_limit > self.price_limit,
                OrderSide::Sell => other.price_limit < self.price_limit,
            };
            if other_is_better {
                Ordering::Greater
            } else {
                Ordering::Less
            }
        };
        Some(order)
    }
}

impl<D: Direction> PartialOrdSpecImpl for Order<D> {
    open spec fn obeys_partial_cmp_spec() -> bool {
        true
    }

    open spec fn partial_cmp_spec(&self, other: &Self) -> Option<Ordering> {
        if self.price_limit == other.price_limit {
            Some(Ordering::Equal)
        } else if crate::priority::worse(D::SIDE, self.price_limit, other.price_limit) {
            Some(Ordering::Greater)
        } else {
            Some(Ordering::Less)
        }
    }
}

} // verus!
