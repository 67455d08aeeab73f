//! Orders, trades and order requests.
use vstd::prelude::*;
use crate::decimal::Decimal;
use crate::text::str_eq;

verus! {

/// The side of the book a resting order stands on.
#[derive(Clone, Copy, Debug, PartialEq, Eq, Structural, Hash)]
pub enum Side {
    /// Resting sell interest.
    Ask,
    /// Resting buy interest.
    Bid,
}

/// The direction of a submitted order.
#[derive(Clone, Copy, Debug, PartialEq, Eq, Structural, Hash)]
pub enum Direction {
    Buy,
    Sell,
}

/// Whether an order carries a price bound.
#[derive(Clone, Copy, Debug, PartialEq, Eq, Structural, Hash)]
pub enum OrderType {
    /// Bounded by a price; what is not filled rests in the book.
    Limit,
    /// Takes what the book offers at any price; never rests.
    Market,
}

/// What a ledger record reports.
#[derive(Clone, Copy, Debug, PartialEq, Eq, Structural, Hash)]
pub enum TradeStatus {
    /// A submission was taken in. Written once per submission, before matching.
    New,
    /// A resting order was consumed in part.
    PartiallyFilled,
    /// A resting order was consumed whole.
    Filled,
}

/// The side a ledger record names: the submission's direction on an
/// acknowledgement, the resting order's side on a fill.
#[derive(Clone, Copy, Debug, PartialEq, Eq, Structural, Hash)]
pub enum TradeSide {
    Buy,
    Sell,
    Ask,
    Bid,
}

/// An order resting in a book.
#[derive(Debug, PartialEq, Eq)]
pub struct Order {
    pub id: u128,
    pub price: Decimal,
    /// The volume that is still open.
    pub volume: Decimal,
    pub side: Side,
    pub timestamp: String,
    pub order_type: OrderType,
}

/// One record of a trader's ledger.
#[derive(Debug, PartialEq, Eq)]
pub struct Trade {
    pub id: u128,
    pub trader: String,
    pub pair: String,
    pub price: Decimal,
    pub volume: Decimal,
    pub side: TradeSide,
    pub timestamp: String,
    pub order_type: OrderType,
    pub status: TradeStatus,
}

/// An order as a trader submits it.
#[derive(Debug, PartialEq, Eq)]
pub struct OrderRequest {
    pub pair: String,
    pub volume: Decimal,
    pub side: Direction,
    pub order_type: OrderType,
    pub price: Decimal,
    pub trader: String,
}

impl Clone for Order {
    fn clone(&self) -> (copy: Self)
        ensures
            copy == *self,
    {
        Order {
            id: self.id,
            price: self.price,
            volume: self.volume,
            side: self.side,
            timestamp: self.timestamp.clone(),
            order_type: self.order_type,
        }
    }
}

impl Clone for Trade {
    fn clone(&self) -> (copy: Self)
        ensures
            copy == *self,
    {
        Trade {
            id: self.id,
            trader: self.trader.clone(),
            pair: self.pair.clone(),
            price: self.price,
            volume: self.volume,
            side: self.side,
            timestamp: self.timestamp.clone(),
            order_type: self.order_type,
            status: self.status,
        }
    }
}

impl Clone for OrderRequest {
    fn clone(&self) -> (copy: Self)
        ensures
            copy == *self,
    {
        OrderRequest {
            pair: self.pair.clone(),
            volume: self.volume,
            side: self.side,
            order_type: self.order_type,
            price: self.price,
            trader: self.trader.clone(),
        }
    }
}

/// A copy of the orders, in order.
pub fn copy_orders(orders: &Vec<Order>) -> (copy: Vec<Order>)
    ensures
        copy@ == orders@,
{
    let mut copy: Vec<Order> = Vec::new();
    let mut i: usize = 0;
    while i < orders.len()
        invariant
            0 <= i <= orders@.len(),
            copy@ == orders@.subrange(0, i as int),
        decreases orders@.len() - i,
    {
        copy.push(orders[i].clone());
        assert(copy@ =~= orders@.subrange(0, i + 1));
        i += 1;
    }
    assert(orders@.subrange(0, i as int) == orders@);
    copy
}

/// The side named by `ask` or `bid`.
pub open spec fn side_named(name: Seq<char>) -> Option<Side> {
    if name == "ask"@ {
        Some(Side::Ask)
    } else if name == "bid"@ {
        Some(Side::Bid)
    } else {
        None
    }
}

/// The direction named by `buy` or `sell`.
pub open spec fn direction_named(name: Seq<char>) -> Option<Direction> {
    if name == "buy"@ {
        Some(Direction::Buy)
    } else if name == "sell"@ {
        Some(Direction::Sell)
    } else {
        None
    }
}

/// The order type named by `limit` or `market`.
pub open spec fn order_type_named(name: Seq<char>) -> Option<OrderType> {
    if name == "limit"@ {
        Some(OrderType::Limit)
    } else if name == "market"@ {
        Some(OrderType::Market)
    } else {
        None
    }
}

impl Side {
    /// The name of the side: `ask` or `bid`.
    pub open spec fn spec_name(self) -> Seq<char> {
        match self {
            Side::Ask => "ask"@,
            Side::Bid => "bid"@,
        }
    }

    /// The name of the side: `ask` or `bid`.
    pub fn name(&self) -> (text: &'static str)
        ensures
            text@ == self.spec_name(),
    {
        match self {
            Side::Ask => "ask",
            Side::Bid => "bid",
        }
    }

    /// The side that `name` names, if any.
    pub fn parse(name: &str) -> (side: Option<Side>)
        ensures
            side == side_named(name@),
    {
        if str_eq(name, "ask") {
            Some(Side::Ask)
        } else if str_eq(name, "bid") {
            Some(Side::Bid)
        } else {
            None
        }
    }
}

impl Direction {
    /// The name of the direction: `buy` or `sell`.
    pub open spec fn spec_name(self) -> Seq<char> {
        match self {
            Direction::Buy => "buy"@,
            Direction::Sell => "sell"@,
        }
    }

    /// The name of the direction: `buy` or `sell`.
    pub fn name(&self) -> (text: &'static str)
        ensures
            text@ == self.spec_name(),
    {
        match self {
            Direction::Buy => "buy",
            Direction::Sell => "sell",
        }
    }

    /// The direction that `name` names, if any.
    pub fn parse(name: &str) -> (direction: Option<Direction>)
        ensures
            direction == direction_named(name@),
    {
        if str_eq(name, "buy") {
            Some(Direction::Buy)
        } else if str_eq(name, "sell") {
            Some(Direction::Sell)
        } else {
            None
        }
    }

    /// The side of the book that an order of this direction matches against.
    pub open spec fn spec_counter_side(self) -> Side {
        match self {
            Direction::Buy => Side::Ask,
            Direction::Sell => Side::Bid,
        }
    }

    /// The side of the book that an order of this direction matches against.
    #[verifier::when_used_as_spec(spec_counter_side)]
    pub fn counter_side(self) -> (side: Side)
        ensures
            side == self.spec_counter_side(),
    {
        match self {
            Direction::Buy => Side::Ask,
            Direction::Sell => Side::Bid,
        }
    }

    /// The side on which what is left of an order of this direction rests.
    pub open spec fn spec_resting_side(self) -> Side {
        match self {
            Direction::Buy => Side::Bid,
            Direction::Sell => Side::Ask,
        }
    }

    /// The side on which what is left of an order of this direction rests.
    #[verifier::when_used_as_spec(spec_resting_side)]
    pub fn resting_side(self) -> (side: Side)
        ensures
            side == self.spec_resting_side(),
    {
        match self {
            Direction::Buy => Side::Bid,
            Direction::Sell => Side::Ask,
        }
    }
}

impl OrderType {
    /// The name of the order type: `limit` or `market`.
    pub open spec fn spec_name(self) -> Seq<char> {
        match self {
            OrderType::Limit => "limit"@,
            OrderType::Market => "market"@,
        }
    }

    /// The name of the order type: `limit` or `market`.
    pub fn name(&self) -> (text: &'static str)
        ensures
            text@ == self.spec_name(),
    {
        match self {
            OrderType::Limit => "limit",
            OrderType::Market => "market",
        }
    }

    /// The order type that `name` names, if any.
    pub fn parse(name: &str) -> (order_type: Option<OrderType>)
        ensures
            order_type == order_type_named(name@),
    {
        if str_eq(name, "limit") {
            Some(OrderType::Limit)
        } else if str_eq(name, "market") {
            Some(OrderType::Market)
        } else {
            None
        }
    }
}

impl TradeStatus {
    /// The name of the status: `new`, `partially_filled` or `filled`.
    pub open spec fn spec_name(self) -> Seq<char> {
        match self {
            TradeStatus::New => "new"@,
            TradeStatus::PartiallyFilled => "partially_filled"@,
            TradeStatus::Filled => "filled"@,
        }
    }

    /// The name of the status: `new`, `partially_filled` or `filled`.
    pub fn name(&self) -> (text: &'static str)
        ensures
            text@ == self.spec_name(),
    {
        match self {
            TradeStatus::New => "new",
            TradeStatus::PartiallyFilled => "partially_filled",
            TradeStatus::Filled => "filled",
        }
    }
}

impl TradeSide {
    /// The record side of a resting order's side.
    pub open spec fn of_side(side: Side) -> TradeSide {
        match side {
            Side::Ask => TradeSide::Ask,
            Side::Bid => TradeSide::Bid,
        }
    }

    /// The record side of a submission's direction.
    pub open spec fn of_direction(direction: Direction) -> TradeSide {
        match direction {
            Direction::Buy => TradeSide::Buy,
            Direction::Sell => TradeSide::Sell,
        }
    }

    /// The name of the side: `buy`, `sell`, `ask` or `bid`.
    pub open spec fn spec_name(self) -> Seq<char> {
        match self {
            TradeSide::Buy => "buy"@,
            TradeSide::Sell => "sell"@,
            TradeSide::Ask => "ask"@,
            TradeSide::Bid => "bid"@,
        }
    }

    /// The name of the side: `buy`, `sell`, `ask` or `bid`.
    pub fn name(&self) -> (text: &'static str)
        ensures
            text@ == self.spec_name(),
    {
        match self {
            TradeSide::Buy => "buy",
            TradeSide::Sell => "sell",
            TradeSide::Ask => "ask",
            TradeSide::Bid => "bid",
        }
    }
}

} // verus!
