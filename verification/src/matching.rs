//! The matching engine: one submitted order against one book.
use vstd::prelude::*;
use crate::decimal::Decimal;
use crate::order::{Direction, Order, OrderRequest, OrderType, Side, Trade, TradeSide, TradeStatus};
use crate::ranking::{rank_orders, ranked, Ranking};

verus! {

/// Whether the resting order `order` can be matched by `request`: it
/// stands on the opposite side, and a limit request's price reaches it.
pub open spec fn crosses(request: OrderRequest, order: Order) -> bool {
    order.side == request.side.spec_counter_side() && match request.order_type {
        OrderType::Market => true,
        OrderType::Limit => match request.side {
            Direction::Buy => request.price.units >= order.price.units,
            Direction::Sell => request.price.units <= order.price.units,
        },
    }
}

/// The smaller of two numbers.
pub open spec fn smaller(a: nat, b: nat) -> nat {
    if a <= b {
        a
    } else {
        b
    }
}

/// The ledger record that acknowledges `request`.
pub open spec fn ack_record(request: OrderRequest, ack_id: u128, now: String) -> Trade {
    Trade {
        id: ack_id,
        trader: request.trader,
        pair: request.pair,
        price: request.price,
        volume: request.volume,
        side: TradeSide::of_direction(request.side),
        timestamp: now,
        order_type: request.order_type,
        status: TradeStatus::New,
    }
}

/// The ledger record for `matched` units taken from the resting order
/// `order`, whose volume is the one before the match. It carries the
/// resting order's id, price, side and type; a match that takes the whole
/// of the order is a fill, any other a partial fill.
pub open spec fn fill_record(request: OrderRequest, order: Order, matched: nat, now: String) -> Trade {
    Trade {
        id: order.id,
        trader: request.trader,
        pair: request.pair,
        price: order.price,
        volume: Decimal { units: matched as u64 },
        side: TradeSide::of_side(order.side),
        timestamp: now,
        order_type: order.order_type,
        status: if matched == order.volume.units {
            TradeStatus::Filled
        } else {
            TradeStatus::PartiallyFilled
        },
    }
}

/// The resting order `order` with `left` units still open.
pub open spec fn with_volume(order: Order, left: nat) -> Order {
    Order {
        id: order.id,
        price: order.price,
        volume: Decimal { units: left as u64 },
        side: order.side,
        timestamp: order.timestamp,
        order_type: order.order_type,
    }
}

/// What stays in the book of a resting order after `matched` units were
/// taken from it: nothing once it is used up.
pub open spec fn left_of(order: Order, matched: nat) -> Seq<Order> {
    if matched == order.volume.units {
        Seq::empty()
    } else {
        seq![with_volume(order, (order.volume.units - matched) as nat)]
    }
}

/// The order that rests for what a limit request could not fill. It
/// carries the id of the request's acknowledgement.
pub open spec fn resting_order(request: OrderRequest, remaining: nat, ack_id: u128, now: String) -> Order {
    Order {
        id: ack_id,
        price: request.price,
        volume: Decimal { units: remaining as u64 },
        side: request.side.spec_resting_side(),
        timestamp: now,
        order_type: OrderType::Limit,
    }
}

/// The outcome of walking a list of resting orders with a request.
pub struct Sweep {
    /// The orders that stay, in the order of the walk.
    pub book: Seq<Order>,
    /// The fills, in the order in which resting orders were consumed.
    pub trades: Seq<Trade>,
    /// The volume of the request that found no counterparty.
    pub remaining: nat,
}

/// Walks `orders` from the front with `remaining` units to fill. Each
/// order that the request crosses gives up as much as is still wanted and
/// is recorded; the walk ends with the match that leaves nothing wanted.
pub open spec fn sweep(orders: Seq<Order>, request: OrderRequest, remaining: nat, now: String) -> Sweep
    decreases orders.len(),
{
    if orders.len() == 0 {
        Sweep { book: Seq::empty(), trades: Seq::empty(), remaining }
    } else if !crosses(request, orders[0]) {
        let rest = sweep(orders.drop_first(), request, remaining, now);
        Sweep { book: seq![orders[0]] + rest.book, trades: rest.trades, remaining: rest.remaining }
    } else {
        let matched = smaller(orders[0].volume.units as nat, remaining);
        let record = fill_record(request, orders[0], matched, now);
        if matched == remaining {
            Sweep {
                book: left_of(orders[0], matched) + orders.drop_first(),
                trades: seq![record],
                remaining: 0,
            }
        } else {
            let rest = sweep(orders.drop_first(), request, (remaining - matched) as nat, now);
            Sweep {
                book: left_of(orders[0], matched) + rest.book,
                trades: seq![record] + rest.trades,
                remaining: rest.remaining,
            }
        }
    }
}

/// The walk that matching `request` against `book` makes: over the book
/// in matching priority, with the whole of the request's volume.
pub open spec fn match_sweep(book: Seq<Order>, request: OrderRequest, now: String) -> Sweep {
    sweep(ranked(book, Ranking::SidePriority), request, request.volume.units as nat, now)
}

/// The fills that matching `request` against `book` records, in order.
pub open spec fn matched_trades(book: Seq<Order>, request: OrderRequest, now: String) -> Seq<Trade> {
    match_sweep(book, request, now).trades
}

/// The volume of `request` that matching against `book` leaves unfilled.
pub open spec fn unfilled(book: Seq<Order>, request: OrderRequest, now: String) -> nat {
    match_sweep(book, request, now).remaining
}

/// Whether what `request` leaves unfilled comes to rest in the book.
pub open spec fn rests(book: Seq<Order>, request: OrderRequest, now: String) -> bool {
    request.order_type == OrderType::Limit && unfilled(book, request, now) > 0
}

/// The book after matching `request` against `book`: what the walk left,
/// then the resting order for an unfilled limit request, laid out with asks
/// in front of bids and each side by descending price.
pub open spec fn matched_book(book: Seq<Order>, request: OrderRequest, ack_id: u128, now: String) -> Seq<Order> {
    let swept = match_sweep(book, request, now);
    let residue = if rests(book, request, now) {
        seq![resting_order(request, swept.remaining, ack_id, now)]
    } else {
        Seq::empty()
    };
    ranked(swept.book + residue, Ranking::SidePriceDescending)
}

/// What matching one request against one book gives.
pub struct Matching {
    /// The book after the match.
    pub book: Vec<Order>,
    /// The fills, in the order in which resting orders were consumed.
    pub trades: Vec<Trade>,
    /// The volume that found no counterparty.
    pub remaining: Decimal,
}

/// Whether the resting order `order` can be matched by `request`.
pub fn request_crosses(request: &OrderRequest, order: &Order) -> (yes: bool)
    ensures
        yes == crosses(*request, *order),
{
    let opposite = match (request.side, order.side) {
        (Direction::Buy, Side::Ask) => true,
        (Direction::Sell, Side::Bid) => true,
        _ => false,
    };
    opposite && match request.order_type {
        OrderType::Market => true,
        OrderType::Limit => match request.side {
            Direction::Buy => request.price.units >= order.price.units,
            Direction::Sell => request.price.units <= order.price.units,
        },
    }
}

/// Matches `request` against `book`.
///
/// The book is walked in price priority (lowest ask first for a buy,
/// highest bid first for a sell; orders of one price in book order). What
/// a limit request leaves unfilled rests under `ack_id`; what a market
/// request leaves unfilled is dropped. `now` stamps the fills and the
/// resting order.
pub fn match_order(book: &Vec<Order>, request: &OrderRequest, ack_id: u128, now: &String) -> (m: Matching)
    ensures
        m.book@ == matched_book(book@, *request, ack_id, *now),
        m.trades@ == matched_trades(book@, *request, *now),
        m.remaining@ == unfilled(book@, *request, *now),
{
    let working = rank_orders(book, Ranking::SidePriority);
    let mut kept: Vec<Order> = Vec::new();
    let mut trades: Vec<Trade> = Vec::new();
    let mut remaining: u64 = request.volume.units;
    let mut wanted: bool = true;
    let mut i: usize = 0;
    let ghost whole = match_sweep(book@, *request, *now);
    assert(working@.skip(0) == working@);
    while i < working.len()
        invariant
            0 <= i <= working.len(),
            working@ == ranked(book@, Ranking::SidePriority),
            whole == match_sweep(book@, *request, *now),
            wanted ==> {
                let rest = sweep(working@.skip(i as int), *request, remaining as nat, *now);
                &&& whole.book == kept@ + rest.book
                &&& whole.trades == trades@ + rest.trades
                &&& whole.remaining == rest.remaining
            },
            !wanted ==> {
                &&& whole.book == kept@ + working@.skip(i as int)
                &&& whole.trades == trades@
                &&& whole.remaining == 0
                &&& remaining == 0
            },
        decreases working.len() - i,
    {
        let order = &working[i];
        let ghost tail = working@.skip(i as int);
        let ghost kept_before = kept@;
        let ghost trades_before = trades@;
        proof {
            assert(tail[0] == working@[i as int]);
            assert(tail.drop_first() == working@.skip(i + 1));
        }
        if wanted && request_crosses(request, order) {
            let matched: u64 = if order.volume.units <= remaining {
                order.volume.units
            } else {
                remaining
            };
            let left: u64 = order.volume.units - matched;
            trades.push(
                Trade {
                    id: order.id,
                    trader: request.trader.clone(),
                    pair: request.pair.clone(),
                    price: order.price,
                    volume: Decimal { units: matched },
                    side: match order.side {
                        Side::Ask => TradeSide::Ask,
                        Side::Bid => TradeSide::Bid,
                    },
                    timestamp: now.clone(),
                    order_type: order.order_type,
                    status: if left == 0 {
                        TradeStatus::Filled
                    } else {
                        TradeStatus::PartiallyFilled
                    },
                },
            );
            if left > 0 {
                kept.push(
                    Order {
                        id: order.id,
                        price: order.price,
                        volume: Decimal { units: left },
                        side: order.side,
                        timestamp: order.timestamp.clone(),
                        order_type: order.order_type,
                    },
                );
            }
            remaining = remaining - matched;
            if remaining == 0 {
                wanted = false;
            }
            proof {
                let record = fill_record(*request, *order, matched as nat, *now);
                let stays = left_of(*order, matched as nat);
                assert(trades@ == trades_before.push(record));
                assert(kept@ =~= kept_before + stays);
                if wanted {
                    let rest = sweep(working@.skip(i + 1), *request, remaining as nat, *now);
                    assert(kept@ + rest.book =~= kept_before + (stays + rest.book));
                    assert(trades@ + rest.trades =~= trades_before + (seq![record] + rest.trades));
                } else {
                    assert(kept@ + working@.skip(i + 1) =~= kept_before + (stays + tail.drop_first()));
                    assert(trades@ =~= trades_before + seq![record]);
                }
            }
        } else {
            kept.push(order.clone());
            proof {
                if wanted {
                    let rest = sweep(working@.skip(i + 1), *request, remaining as nat, *now);
                    assert(kept@ + rest.book =~= kept_before + (seq![*order] + rest.book));
                } else {
                    assert(kept@ + working@.skip(i + 1) =~= kept_before + tail);
                }
            }
        }
        i += 1;
    }
    proof {
        assert(working@.skip(i as int) == Seq::<Order>::empty());
    }
    if remaining > 0 {
        match request.order_type {
            OrderType::Limit => {
                kept.push(
                    Order {
                        id: ack_id,
                        price: request.price,
                        volume: Decimal { units: remaining },
                        side: request.side.resting_side(),
                        timestamp: now.clone(),
                        order_type: OrderType::Limit,
                    },
                );
            },
            OrderType::Market => {},
        }
    }
    let book = rank_orders(&kept, Ranking::SidePriceDescending);
    Matching { book, trades, remaining: Decimal { units: remaining } }
}

} // verus!
