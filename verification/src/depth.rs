//! Books from market depth: price levels as an upstream source reports
//! them, turned into resting orders.
use vstd::prelude::*;
use crate::decimal::{parsed_literal, Decimal};
use crate::ident::fresh_id;
use crate::order::{Order, OrderType, Side};
use crate::ranking::{rank_orders, ranked, Ranking};
use crate::stamp::timestamp_now;
use crate::text::texts;

verus! {

/// A price level that cannot be read: it has fewer than two fields, or its
/// price or volume is no decimal literal that fits.
#[derive(Clone, Copy, Debug, PartialEq, Eq, Structural)]
pub struct DepthError {
    /// The side whose levels hold it.
    pub side: Side,
    /// Its place among the levels of that side.
    pub index: usize,
}

/// Whether a level can be read: its first two fields are a price and a volume.
pub open spec fn level_readable(level: Seq<Seq<char>>) -> bool {
    level.len() >= 2 && parsed_literal(level[0]) is Some && parsed_literal(level[1]) is Some
}

/// The order that a readable level stands for: a limit order of its price
/// and volume. Fields behind the second are not read.
pub open spec fn level_order(level: Seq<Seq<char>>, side: Side, timestamp: String, id: u128) -> Order {
    Order {
        id,
        price: parsed_literal(level[0])->0,
        volume: parsed_literal(level[1])->0,
        side,
        timestamp,
        order_type: OrderType::Limit,
    }
}

/// Whether `orders` are the orders that `levels` stand for, one for one
/// and in order, under whatever ids.
pub open spec fn orders_of_levels(
    orders: Seq<Order>,
    levels: Seq<Vec<String>>,
    side: Side,
    timestamp: String,
) -> bool {
    &&& orders.len() == levels.len()
    &&& forall|i: int|
        #![trigger levels[i]]
        0 <= i < levels.len() ==> level_readable(texts(levels[i]@)) && orders[i] == level_order(
            texts(levels[i]@),
            side,
            timestamp,
            orders[i].id,
        )
}

/// Whether the level at `index` is the first of `levels` that cannot be read.
pub open spec fn first_unreadable(levels: Seq<Vec<String>>, index: int) -> bool {
    &&& 0 <= index < levels.len()
    &&& !level_readable(texts(levels[index]@))
    &&& forall|j: int| 0 <= j < index ==> level_readable(texts(#[trigger] levels[j]@))
}

/// Whether every level can be read.
pub open spec fn all_readable(levels: Seq<Vec<String>>) -> bool {
    forall|j: int| 0 <= j < levels.len() ==> level_readable(texts(#[trigger] levels[j]@))
}

/// The order that `level` stands for under `id`, if it can be read.
pub fn order_from_level(level: &Vec<String>, side: Side, timestamp: &String, id: u128) -> (order: Option<Order>)
    ensures
        order == if level_readable(texts(level@)) {
            Some(level_order(texts(level@), side, *timestamp, id))
        } else {
            None
        },
{
    if level.len() < 2 {
        return None;
    }
    assert(texts(level@)[0] == level@[0]@ && texts(level@)[1] == level@[1]@);
    let price = match Decimal::parse(level[0].as_str()) {
        Some(price) => price,
        None => {
            return None;
        },
    };
    let volume = match Decimal::parse(level[1].as_str()) {
        Some(volume) => volume,
        None => {
            return None;
        },
    };
    Some(Order { id, price, volume, side, timestamp: timestamp.clone(), order_type: OrderType::Limit })
}

/// Turns the levels of one side into limit orders, each under a fresh id.
///
/// Fails at the first level that cannot be read, and names it.
pub fn parse_orders(levels: &Vec<Vec<String>>, side: Side, timestamp: &String) -> (parsed: Result<
    Vec<Order>,
    DepthError,
>)
    ensures
        match parsed {
            Ok(orders) => orders_of_levels(orders@, levels@, side, *timestamp),
            Err(e) => e.side == side && first_unreadable(levels@, e.index as int),
        },
{
    let mut orders: Vec<Order> = Vec::new();
    let mut i: usize = 0;
    while i < levels.len()
        invariant
            0 <= i <= levels@.len(),
            orders_of_levels(orders@, levels@.subrange(0, i as int), side, *timestamp),
        decreases levels@.len() - i,
    {
        match order_from_level(&levels[i], side, timestamp, fresh_id()) {
            Some(order) => {
                orders.push(order);
            },
            None => {
                assert forall|j: int| 0 <= j < i implies level_readable(texts(#[trigger] levels@[j]@)) by {
                    assert(levels@.subrange(0, i as int)[j] == levels@[j]);
                }
                return Err(DepthError { side, index: i });
            },
        }
        proof {
            let before = levels@.subrange(0, i as int);
            let upto = levels@.subrange(0, i + 1);
            assert forall|j: int| #![trigger upto[j]] 0 <= j < upto.len() implies level_readable(
                texts(upto[j]@),
            ) && orders@[j] == level_order(texts(upto[j]@), side, *timestamp, orders@[j].id) by {
                if j < i {
                    assert(before[j] == upto[j]);
                }
            }
        }
        i += 1;
    }
    assert(levels@.subrange(0, i as int) == levels@);
    Ok(orders)
}

/// The book for the asks and bids of one depth report: asks, then bids,
/// sorted by descending price, orders of one price staying in that order.
pub fn depth_book(asks: &Vec<Order>, bids: &Vec<Order>) -> (book: Vec<Order>)
    ensures
        book@ == ranked(asks@ + bids@, Ranking::PriceDescending),
{
    let mut all: Vec<Order> = Vec::new();
    let mut i: usize = 0;
    while i < asks.len()
        invariant
            0 <= i <= asks@.len(),
            all@ == asks@.subrange(0, i as int),
        decreases asks@.len() - i,
    {
        all.push(asks[i].clone());
        assert(all@ =~= asks@.subrange(0, i + 1));
        i += 1;
    }
    assert(asks@.subrange(0, i as int) == asks@);
    let mut j: usize = 0;
    while j < bids.len()
        invariant
            0 <= j <= bids@.len(),
            all@ == asks@ + bids@.subrange(0, j as int),
        decreases bids@.len() - j,
    {
        all.push(bids[j].clone());
        assert(all@ =~= asks@ + bids@.subrange(0, j + 1));
        j += 1;
    }
    assert(bids@.subrange(0, j as int) == bids@);
    rank_orders(&all, Ranking::PriceDescending)
}

/// The book for the ask and bid levels of one depth report, all orders
/// stamped `timestamp`. Fails where a level cannot be read, asks first.
pub fn book_from_depth(asks: &Vec<Vec<String>>, bids: &Vec<Vec<String>>, timestamp: &String) -> (made: Result<
    Vec<Order>,
    DepthError,
>)
    ensures
        match made {
            Ok(book) => exists|a: Seq<Order>, b: Seq<Order>|
                {
                    &&& orders_of_levels(a, asks@, Side::Ask, *timestamp)
                    &&& orders_of_levels(b, bids@, Side::Bid, *timestamp)
                    &&& book@ == ranked(a + b, Ranking::PriceDescending)
                },
            Err(e) => match e.side {
                Side::Ask => first_unreadable(asks@, e.index as int),
                Side::Bid => all_readable(asks@) && first_unreadable(bids@, e.index as int),
            },
        },
{
    let ask_orders = match parse_orders(asks, Side::Ask, timestamp) {
        Ok(orders) => orders,
        Err(e) => {
            return Err(e);
        },
    };
    let bid_orders = match parse_orders(bids, Side::Bid, timestamp) {
        Ok(orders) => orders,
        Err(e) => {
            return Err(e);
        },
    };
    let book = depth_book(&ask_orders, &bid_orders);
    assert(orders_of_levels(ask_orders@, asks@, Side::Ask, *timestamp) && orders_of_levels(
        bid_orders@,
        bids@,
        Side::Bid,
        *timestamp,
    ) && book@ == ranked(ask_orders@ + bid_orders@, Ranking::PriceDescending));
    Ok(book)
}

/// The book for one depth report as of now: like [`book_from_depth`], with
/// the current time as the timestamp, which is returned with the book.
pub fn ingest_depth(asks: &Vec<Vec<String>>, bids: &Vec<Vec<String>>) -> (made: Result<
    (Vec<Order>, String),
    DepthError,
>)
    ensures
        match made {
            Ok((book, timestamp)) => exists|a: Seq<Order>, b: Seq<Order>|
                {
                    &&& orders_of_levels(a, asks@, Side::Ask, timestamp)
                    &&& orders_of_levels(b, bids@, Side::Bid, timestamp)
                    &&& book@ == ranked(a + b, Ranking::PriceDescending)
                },
            Err(e) => match e.side {
                Side::Ask => first_unreadable(asks@, e.index as int),
                Side::Bid => all_readable(asks@) && first_unreadable(bids@, e.index as int),
            },
        },
{
    let timestamp = timestamp_now();
    match book_from_depth(asks, bids, &timestamp) {
        Ok(book) => Ok((book, timestamp)),
        Err(e) => Err(e),
    }
}

} // verus!
