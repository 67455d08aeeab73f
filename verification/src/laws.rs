//! What holds of every match: volumes, price priority, what comes to
//! rest, what a book may hold, and the order of the ledger.
use vstd::prelude::*;
use crate::decimal::Decimal;
use crate::matching::{
    crosses, fill_record, left_of, match_sweep, matched_book, matched_trades, resting_order, rests, smaller,
    sweep, unfilled, with_volume,
};
use crate::order::{Direction, Order, OrderRequest, OrderType, Trade, TradeStatus};
use crate::ranking::{
    insertion_point, is_ranked, lemma_insertion_point, lemma_ranked_is_ranked, lemma_ranked_permutes, precedes,
    ranked, Ranking,
};
use crate::loader::loaded_from;
use crate::service::{books_after_all, ledger_after_all, submission_records, Submission};
use crate::snapshot::{
    lemma_snapshot_rows_read_back, read_back, record_of, records_of, rows_records, snapshot_layout,
    snapshot_rows_of, OrderRecord,
};

verus! {

/// The volume that `order` offers to `request`: its own, if the request
/// crosses it.
pub open spec fn offered(request: OrderRequest, order: Order) -> nat {
    if crosses(request, order) {
        order.volume.units as nat
    } else {
        0
    }
}

/// The sum of the volumes of the orders that `request` crosses.
pub open spec fn crossing_volume(orders: Seq<Order>, request: OrderRequest) -> nat
    decreases orders.len(),
{
    if orders.len() == 0 {
        0
    } else {
        offered(request, orders[0]) + crossing_volume(orders.drop_first(), request)
    }
}

/// The sum of the volumes of the records.
pub open spec fn traded_volume(trades: Seq<Trade>) -> nat
    decreases trades.len(),
{
    if trades.len() == 0 {
        0
    } else {
        trades[0].volume.units as nat + traded_volume(trades.drop_first())
    }
}

/// An order put in anywhere adds what it offers.
proof fn lemma_crossing_volume_insert(orders: Seq<Order>, request: OrderRequest, p: int, x: Order)
    requires
        0 <= p <= orders.len(),
    ensures
        crossing_volume(orders.insert(p, x), request) == crossing_volume(orders, request) + offered(request, x),
    decreases orders.len(),
{
    let longer = orders.insert(p, x);
    if p == 0 {
        assert(longer.drop_first() == orders);
    } else {
        assert(longer.drop_first() == orders.drop_first().insert(p - 1, x));
        lemma_crossing_volume_insert(orders.drop_first(), request, p - 1, x);
    }
}

/// Sorting does not change what a book offers.
proof fn lemma_crossing_volume_ranked(orders: Seq<Order>, request: OrderRequest, ranking: Ranking)
    ensures
        crossing_volume(ranked(orders, ranking), request) == crossing_volume(orders, request),
    decreases orders.len(),
{
    if orders.len() > 0 {
        let front = ranked(orders.drop_last(), ranking);
        lemma_crossing_volume_ranked(orders.drop_last(), request, ranking);
        lemma_insertion_point(front, orders.last(), ranking);
        lemma_crossing_volume_insert(front, request, insertion_point(front, orders.last(), ranking), orders.last());
        lemma_crossing_volume_insert(orders.drop_last(), request, orders.len() - 1, orders.last());
        assert(orders.drop_last().insert(orders.len() - 1, orders.last()) == orders);
    }
}

/// A walk fills the smaller of what is wanted and what is offered, and
/// leaves the rest of what was wanted.
proof fn lemma_sweep_volume(orders: Seq<Order>, request: OrderRequest, remaining: nat, now: String)
    ensures
        traded_volume(sweep(orders, request, remaining, now).trades) == smaller(
            remaining,
            crossing_volume(orders, request),
        ),
        sweep(orders, request, remaining, now).remaining == remaining - smaller(
            remaining,
            crossing_volume(orders, request),
        ),
    decreases orders.len(),
{
    if orders.len() == 0 {
    } else if !crosses(request, orders[0]) {
        lemma_sweep_volume(orders.drop_first(), request, remaining, now);
    } else {
        let matched = smaller(orders[0].volume.units as nat, remaining);
        let record = fill_record(request, orders[0], matched, now);
        assert(record.volume.units == matched);
        if matched == remaining {
            assert(seq![record].drop_first() == Seq::<Trade>::empty());
            assert(traded_volume(Seq::<Trade>::empty()) == 0);
            assert(seq![record][0] == record);
            assert(traded_volume(seq![record]) == matched);
        } else {
            let rest = sweep(orders.drop_first(), request, (remaining - matched) as nat, now);
            lemma_sweep_volume(orders.drop_first(), request, (remaining - matched) as nat, now);
            assert((seq![record] + rest.trades).drop_first() == rest.trades);
            assert((seq![record] + rest.trades)[0] == record);
            assert(traded_volume(seq![record] + rest.trades) == matched + traded_volume(rest.trades));
        }
    }
}

/// The volumes of the fills of a submission add up to the smaller of the
/// submitted volume and the volume of all the resting orders that the
/// submission crosses; what is left unfilled is the difference. For a
/// market order the orders crossed are all those of the opposite side.
pub proof fn law_filled_volume(book: Seq<Order>, request: OrderRequest, now: String)
    ensures
        traded_volume(matched_trades(book, request, now)) == smaller(
            request.volume.units as nat,
            crossing_volume(book, request),
        ),
        unfilled(book, request, now) + traded_volume(matched_trades(book, request, now))
            == request.volume.units,
{
    lemma_crossing_volume_ranked(book, request, Ranking::SidePriority);
    lemma_sweep_volume(ranked(book, Ranking::SidePriority), request, request.volume.units as nat, now);
}


/// Whether `trade` records a fill of the resting order `order` by
/// `request`: it carries the order's id, price, side and type, and no more
/// volume than the order has.
pub open spec fn fills_order(trade: Trade, order: Order, request: OrderRequest) -> bool {
    &&& crosses(request, order)
    &&& trade.id == order.id
    &&& trade.price == order.price
    &&& trade.side == crate::order::TradeSide::of_side(order.side)
    &&& trade.order_type == order.order_type
    &&& trade.volume.units <= order.volume.units
    &&& trade.trader == request.trader
    &&& trade.pair == request.pair
}

/// Whether `trade` records a fill of one of the orders at or behind `from`.
pub open spec fn fills_one_of(trade: Trade, orders: Seq<Order>, from: int, request: OrderRequest) -> bool {
    exists|j: int| from <= j < orders.len() && fills_order(trade, #[trigger] orders[j], request)
}

/// A walk records one fill for each order it consumes, and no others.
proof fn lemma_sweep_fills(orders: Seq<Order>, request: OrderRequest, remaining: nat, now: String)
    ensures
        forall|i: int|
            0 <= i < sweep(orders, request, remaining, now).trades.len() ==> fills_one_of(
                #[trigger] sweep(orders, request, remaining, now).trades[i],
                orders,
                i,
                request,
            ),
        sweep(orders, request, remaining, now).trades.len() <= orders.len(),
    decreases orders.len(),
{
    let swept = sweep(orders, request, remaining, now);
    if orders.len() == 0 {
    } else {
        let tail = orders.drop_first();
        if !crosses(request, orders[0]) {
            lemma_sweep_fills(tail, request, remaining, now);
            let rest = sweep(tail, request, remaining, now);
            assert forall|i: int| 0 <= i < swept.trades.len() implies fills_one_of(
                #[trigger] swept.trades[i],
                orders,
                i,
                request,
            ) by {
                assert(fills_one_of(rest.trades[i], tail, i, request));
                let j = choose|j: int| i <= j < tail.len() && fills_order(rest.trades[i], #[trigger] tail[j], request);
                assert(tail[j] == orders[j + 1]);
                assert(fills_order(swept.trades[i], orders[j + 1], request));
            }
        } else {
            let matched = smaller(orders[0].volume.units as nat, remaining);
            let record = fill_record(request, orders[0], matched, now);
            assert(fills_order(record, orders[0], request));
            if matched == remaining {
                assert forall|i: int| 0 <= i < swept.trades.len() implies fills_one_of(
                    #[trigger] swept.trades[i],
                    orders,
                    i,
                    request,
                ) by {
                    assert(swept.trades[0] == record);
                    assert(fills_order(swept.trades[i], orders[0], request));
                }
            } else {
                let rest = sweep(tail, request, (remaining - matched) as nat, now);
                lemma_sweep_fills(tail, request, (remaining - matched) as nat, now);
                assert forall|i: int| 0 <= i < swept.trades.len() implies fills_one_of(
                    #[trigger] swept.trades[i],
                    orders,
                    i,
                    request,
                ) by {
                    if i == 0 {
                        assert(swept.trades[0] == record);
                        assert(fills_order(swept.trades[i], orders[0], request));
                    } else {
                        assert(swept.trades[i] == rest.trades[i - 1]);
                        assert(fills_one_of(rest.trades[i - 1], tail, i - 1, request));
                        let j = choose|j: int|
                            i - 1 <= j < tail.len() && fills_order(rest.trades[i - 1], #[trigger] tail[j], request);
                        assert(tail[j] == orders[j + 1]);
                        assert(fills_order(swept.trades[i], orders[j + 1], request));
                    }
                }
            }
        }
    }
}

/// Every fill of a submission records the consumption of a resting order
/// of the book that the submission crosses, under that order's id and at
/// that order's price; and a submission adds to the ledger its
/// acknowledgement and at most one fill for each order of the book.
pub proof fn law_fills_name_resting_orders(book: Seq<Order>, request: OrderRequest, now: String)
    ensures
        forall|i: int|
            0 <= i < matched_trades(book, request, now).len() ==> fills_one_of(
                #[trigger] matched_trades(book, request, now)[i],
                book,
                0,
                request,
            ),
        matched_trades(book, request, now).len() <= book.len(),
{
    let working = ranked(book, Ranking::SidePriority);
    let trades = matched_trades(book, request, now);
    lemma_sweep_fills(working, request, request.volume.units as nat, now);
    lemma_ranked_members(book, Ranking::SidePriority);
    crate::ranking::lemma_ranked_len(book, Ranking::SidePriority);
    assert forall|i: int| 0 <= i < trades.len() implies fills_one_of(#[trigger] trades[i], book, 0, request) by {
        assert(fills_one_of(trades[i], working, i, request));
        let w = choose|w: int| i <= w < working.len() && fills_order(trades[i], #[trigger] working[w], request);
        assert(book.contains(working[w]));
        let j = choose|j: int| 0 <= j < book.len() && book[j] == working[w];
        assert(fills_order(trades[i], book[j], request));
    }
}

/// Whether price `a` is strictly better than price `b` for one who
/// submits in `direction`: lower for a buyer, higher for a seller.
pub open spec fn price_better(direction: Direction, a: Decimal, b: Decimal) -> bool {
    match direction {
        Direction::Buy => a.units < b.units,
        Direction::Sell => a.units > b.units,
    }
}

/// Whether no order of `book` that `request` crosses has a price better than `price`.
pub open spec fn book_no_better(book: Seq<Order>, request: OrderRequest, price: Decimal) -> bool {
    forall|k: int|
        0 <= k < book.len() && crosses(request, #[trigger] book[k]) ==> !price_better(
            request.side,
            book[k].price,
            price,
        )
}

/// Whether no record of `trades` has a price better than `price`.
pub open spec fn trades_no_better(trades: Seq<Trade>, direction: Direction, price: Decimal) -> bool {
    forall|i: int| 0 <= i < trades.len() ==> !price_better(direction, (#[trigger] trades[i]).price, price)
}

/// Whether the records come in price priority: none has a better price
/// than one in front of it.
pub open spec fn in_priority(trades: Seq<Trade>, direction: Direction) -> bool {
    forall|i: int, j: int|
        #![trigger trades[i], trades[j]]
        0 <= i < j < trades.len() ==> !price_better(direction, trades[j].price, trades[i].price)
}

/// Whether no order of `book` that `request` crosses has a better price
/// than any of the records.
pub open spec fn none_passed_over(book: Seq<Order>, trades: Seq<Trade>, request: OrderRequest) -> bool {
    forall|i: int| 0 <= i < trades.len() ==> book_no_better(book, request, (#[trigger] trades[i]).price)
}

/// Whether every record but the last reports a resting order consumed
/// whole, and the last one a fill or a partial fill.
pub open spec fn fills_then_partial(trades: Seq<Trade>) -> bool {
    &&& forall|i: int| 0 <= i < trades.len() - 1 ==> (#[trigger] trades[i]).status == TradeStatus::Filled
    &&& forall|i: int| 0 <= i < trades.len() ==> (#[trigger] trades[i]).status != TradeStatus::New
}

/// A walk takes its prices from the orders it crosses.
proof fn lemma_sweep_no_better(
    orders: Seq<Order>,
    request: OrderRequest,
    remaining: nat,
    now: String,
    price: Decimal,
)
    requires
        book_no_better(orders, request, price),
    ensures
        trades_no_better(sweep(orders, request, remaining, now).trades, request.side, price),
        book_no_better(sweep(orders, request, remaining, now).book, request, price),
    decreases orders.len(),
{
    let swept = sweep(orders, request, remaining, now);
    if orders.len() == 0 {
    } else {
        let tail = orders.drop_first();
        assert forall|k: int| 0 <= k < tail.len() && crosses(request, #[trigger] tail[k]) implies !price_better(
            request.side,
            tail[k].price,
            price,
        ) by {
            assert(tail[k] == orders[k + 1]);
        }
        if !crosses(request, orders[0]) {
            lemma_sweep_no_better(tail, request, remaining, now, price);
            let rest = sweep(tail, request, remaining, now);
            assert forall|k: int| 0 <= k < swept.book.len() && crosses(
                request,
                #[trigger] swept.book[k],
            ) implies !price_better(request.side, swept.book[k].price, price) by {
                if k > 0 {
                    assert(swept.book[k] == rest.book[k - 1]);
                }
            }
        } else {
            let matched = smaller(orders[0].volume.units as nat, remaining);
            let stays = left_of(orders[0], matched);
            let record = fill_record(request, orders[0], matched, now);
            if matched == remaining {
                assert forall|k: int| 0 <= k < swept.book.len() && crosses(
                    request,
                    #[trigger] swept.book[k],
                ) implies !price_better(request.side, swept.book[k].price, price) by {
                    if k >= stays.len() {
                        assert(swept.book[k] == tail[k - stays.len()]);
                    }
                }
            } else {
                let rest = sweep(tail, request, (remaining - matched) as nat, now);
                lemma_sweep_no_better(tail, request, (remaining - matched) as nat, now, price);
                assert forall|k: int| 0 <= k < swept.book.len() && crosses(
                    request,
                    #[trigger] swept.book[k],
                ) implies !price_better(request.side, swept.book[k].price, price) by {
                    if k >= stays.len() {
                        assert(swept.book[k] == rest.book[k - stays.len()]);
                    }
                }
                assert forall|i: int| 0 <= i < swept.trades.len() implies !price_better(
                    request.side,
                    (#[trigger] swept.trades[i]).price,
                    price,
                ) by {
                    if i > 0 {
                        assert(swept.trades[i] == rest.trades[i - 1]);
                    }
                }
            }
        }
    }
}

/// A walk over orders in matching priority consumes them in price
/// priority and passes over none that it crosses.
proof fn lemma_sweep_priority(orders: Seq<Order>, request: OrderRequest, remaining: nat, now: String)
    requires
        is_ranked(orders, Ranking::SidePriority),
    ensures
        in_priority(sweep(orders, request, remaining, now).trades, request.side),
        none_passed_over(
            sweep(orders, request, remaining, now).book,
            sweep(orders, request, remaining, now).trades,
            request,
        ),
        fills_then_partial(sweep(orders, request, remaining, now).trades),
    decreases orders.len(),
{
    let swept = sweep(orders, request, remaining, now);
    if orders.len() == 0 {
    } else {
        let tail = orders.drop_first();
        assert forall|i: int, j: int| 0 <= i < j < tail.len() implies !precedes(
            Ranking::SidePriority,
            #[trigger] tail[j],
            #[trigger] tail[i],
        ) by {
            assert(tail[i] == orders[i + 1] && tail[j] == orders[j + 1]);
        }
        if !crosses(request, orders[0]) {
            lemma_sweep_priority(tail, request, remaining, now);
            let rest = sweep(tail, request, remaining, now);
            assert forall|i: int| 0 <= i < swept.trades.len() implies book_no_better(
                swept.book,
                request,
                (#[trigger] swept.trades[i]).price,
            ) by {
                assert(book_no_better(rest.book, request, rest.trades[i].price));
                assert forall|k: int| 0 <= k < swept.book.len() && crosses(
                    request,
                    #[trigger] swept.book[k],
                ) implies !price_better(request.side, swept.book[k].price, swept.trades[i].price) by {
                    if k > 0 {
                        assert(swept.book[k] == rest.book[k - 1]);
                    }
                }
            }
        } else {
            let first = orders[0];
            let matched = smaller(first.volume.units as nat, remaining);
            let stays = left_of(first, matched);
            let record = fill_record(request, first, matched, now);
            assert forall|k: int| 0 <= k < tail.len() && crosses(request, #[trigger] tail[k]) implies !price_better(
                request.side,
                tail[k].price,
                first.price,
            ) by {
                assert(tail[k] == orders[k + 1]);
                assert(!precedes(Ranking::SidePriority, orders[k + 1], orders[0]));
            }
            assert(book_no_better(tail, request, first.price));
            if matched == remaining {
                assert forall|i: int| 0 <= i < swept.trades.len() implies book_no_better(
                    swept.book,
                    request,
                    (#[trigger] swept.trades[i]).price,
                ) by {
                    assert forall|k: int| 0 <= k < swept.book.len() && crosses(
                        request,
                        #[trigger] swept.book[k],
                    ) implies !price_better(request.side, swept.book[k].price, swept.trades[i].price) by {
                        if k >= stays.len() {
                            assert(swept.book[k] == tail[k - stays.len()]);
                        }
                    }
                }
            } else {
                let rest = sweep(tail, request, (remaining - matched) as nat, now);
                lemma_sweep_priority(tail, request, (remaining - matched) as nat, now);
                lemma_sweep_no_better(tail, request, (remaining - matched) as nat, now, first.price);
                assert(stays.len() == 0);
                assert(swept.book == rest.book);
                assert forall|i: int, j: int|
                    #![trigger swept.trades[i], swept.trades[j]]
                    0 <= i < j < swept.trades.len() implies !price_better(
                    request.side,
                    swept.trades[j].price,
                    swept.trades[i].price,
                ) by {
                    assert(swept.trades[j] == rest.trades[j - 1]);
                    if i > 0 {
                        assert(swept.trades[i] == rest.trades[i - 1]);
                    }
                }
                assert forall|i: int| 0 <= i < swept.trades.len() implies book_no_better(
                    swept.book,
                    request,
                    (#[trigger] swept.trades[i]).price,
                ) by {
                    if i > 0 {
                        assert(swept.trades[i] == rest.trades[i - 1]);
                    }
                }
                assert forall|i: int| 0 <= i < swept.trades.len() - 1 implies (#[trigger] swept.trades[i]).status
                    == TradeStatus::Filled by {
                    if i > 0 {
                        assert(swept.trades[i] == rest.trades[i - 1]);
                    }
                }
                assert forall|i: int| 0 <= i < swept.trades.len() implies (#[trigger] swept.trades[i]).status
                    != TradeStatus::New by {
                    if i > 0 {
                        assert(swept.trades[i] == rest.trades[i - 1]);
                    }
                }
            }
        }
    }
}

/// Resting orders are consumed in strict price priority: ascending price
/// for asks, descending for bids. No fill has a better price than a fill
/// in front of it; no order that the submission crosses and that stays in
/// the book has a better price than any fill; and every fill but the last
/// consumes its resting order whole.
pub proof fn law_price_priority(book: Seq<Order>, request: OrderRequest, now: String)
    ensures
        in_priority(matched_trades(book, request, now), request.side),
        none_passed_over(match_sweep(book, request, now).book, matched_trades(book, request, now), request),
        fills_then_partial(matched_trades(book, request, now)),
{
    lemma_ranked_is_ranked(book, Ranking::SidePriority);
    lemma_sweep_priority(ranked(book, Ranking::SidePriority), request, request.volume.units as nat, now);
}


/// Whether every order has volume left and is a limit order: what a book
/// may hold.
pub open spec fn resting_ok(book: Seq<Order>) -> bool {
    forall|k: int|
        0 <= k < book.len() ==> (#[trigger] book[k]).volume.units > 0 && book[k].order_type
            == OrderType::Limit
}

/// Whether `order` is the order `origin` of a book with no more volume
/// left than that had.
pub open spec fn stems_from(order: Order, origin: Order) -> bool {
    order == with_volume(origin, order.volume.units as nat) && order.volume.units <= origin.volume.units
}

/// What sorting gives holds the orders of what was sorted, and no others.
proof fn lemma_ranked_members(orders: Seq<Order>, ranking: Ranking)
    ensures
        forall|k: int|
            0 <= k < ranked(orders, ranking).len() ==> orders.contains(#[trigger] ranked(orders, ranking)[k]),
        forall|k: int| 0 <= k < orders.len() ==> ranked(orders, ranking).contains(#[trigger] orders[k]),
{
    broadcast use vstd::seq_lib::group_to_multiset_ensures;

    lemma_ranked_permutes(orders, ranking);
    let sorted = ranked(orders, ranking);
    assert forall|k: int| 0 <= k < sorted.len() implies orders.contains(#[trigger] sorted[k]) by {
        assert(sorted.contains(sorted[k]));
        assert(sorted.to_multiset().count(sorted[k]) > 0);
    }
    assert forall|k: int| 0 <= k < orders.len() implies sorted.contains(#[trigger] orders[k]) by {
        assert(orders.contains(orders[k]));
        assert(orders.to_multiset().count(orders[k]) > 0);
    }
}

/// A walk leaves only orders of what it walked, with no more volume than
/// they had, and with volume left where they had some.
proof fn lemma_sweep_survivors(orders: Seq<Order>, request: OrderRequest, remaining: nat, now: String)
    ensures
        forall|k: int|
            0 <= k < sweep(orders, request, remaining, now).book.len() ==> exists|j: int|
                0 <= j < orders.len() && stems_from(
                    #[trigger] sweep(orders, request, remaining, now).book[k],
                    orders[j],
                ),
        resting_ok(orders) ==> resting_ok(sweep(orders, request, remaining, now).book),
        sweep(orders, request, remaining, now).remaining > 0 ==> forall|k: int|
            0 <= k < sweep(orders, request, remaining, now).book.len() ==> !crosses(
                request,
                #[trigger] sweep(orders, request, remaining, now).book[k],
            ),
    decreases orders.len(),
{
    let swept = sweep(orders, request, remaining, now);
    if orders.len() == 0 {
    } else {
        let first = orders[0];
        let tail = orders.drop_first();
        assert(stems_from(first, first));
        if resting_ok(orders) {
            assert forall|k: int| 0 <= k < tail.len() implies (#[trigger] tail[k]).volume.units > 0
                && tail[k].order_type == OrderType::Limit by {
                assert(tail[k] == orders[k + 1]);
            }
        }
        if !crosses(request, first) {
            let rest = sweep(tail, request, remaining, now);
            lemma_sweep_survivors(tail, request, remaining, now);
            assert forall|k: int| 0 <= k < swept.book.len() implies exists|j: int|
                0 <= j < orders.len() && stems_from(#[trigger] swept.book[k], orders[j]) by {
                if k == 0 {
                    assert(stems_from(swept.book[0], orders[0]));
                } else {
                    assert(swept.book[k] == rest.book[k - 1]);
                    let j = choose|j: int| 0 <= j < tail.len() && stems_from(rest.book[k - 1], tail[j]);
                    assert(tail[j] == orders[j + 1]);
                }
            }
            if resting_ok(orders) {
                assert forall|k: int| 0 <= k < swept.book.len() implies (#[trigger] swept.book[k]).volume.units
                    > 0 && swept.book[k].order_type == OrderType::Limit by {
                    if k > 0 {
                        assert(swept.book[k] == rest.book[k - 1]);
                    }
                }
            }
            if swept.remaining > 0 {
                assert forall|k: int| 0 <= k < swept.book.len() implies !crosses(
                    request,
                    #[trigger] swept.book[k],
                ) by {
                    if k > 0 {
                        assert(swept.book[k] == rest.book[k - 1]);
                    }
                }
            }
        } else {
            let matched = smaller(first.volume.units as nat, remaining);
            let stays = left_of(first, matched);
            if stays.len() > 0 {
                assert(stems_from(stays[0], first));
            }
            if matched == remaining {
                assert forall|k: int| 0 <= k < swept.book.len() implies exists|j: int|
                    0 <= j < orders.len() && stems_from(#[trigger] swept.book[k], orders[j]) by {
                    if k < stays.len() {
                        assert(stems_from(swept.book[k], orders[0]));
                    } else {
                        assert(swept.book[k] == tail[k - stays.len()]);
                        assert(swept.book[k] == orders[k - stays.len() + 1]);
                        assert(stems_from(swept.book[k], orders[k - stays.len() + 1]));
                    }
                }
                if resting_ok(orders) {
                    assert forall|k: int| 0 <= k < swept.book.len() implies (
                    #[trigger] swept.book[k]).volume.units > 0 && swept.book[k].order_type
                        == OrderType::Limit by {
                        if k >= stays.len() {
                            assert(swept.book[k] == tail[k - stays.len()]);
                        }
                    }
                }
            } else {
                let rest = sweep(tail, request, (remaining - matched) as nat, now);
                lemma_sweep_survivors(tail, request, (remaining - matched) as nat, now);
                assert(stays.len() == 0);
                assert(swept.book == rest.book);
                assert forall|k: int| 0 <= k < swept.book.len() implies exists|j: int|
                    0 <= j < orders.len() && stems_from(#[trigger] swept.book[k], orders[j]) by {
                    let j = choose|j: int| 0 <= j < tail.len() && stems_from(rest.book[k], tail[j]);
                    assert(tail[j] == orders[j + 1]);
                }
            }
        }
    }
}

/// Every order of the book after a match is the order that rests for the
/// submission, or an order of the book before with no more volume than it
/// had: matching adds nothing else, and never adds volume.
pub proof fn law_book_stems_from_book(book: Seq<Order>, request: OrderRequest, ack_id: u128, now: String)
    ensures
        forall|k: int|
            0 <= k < matched_book(book, request, ack_id, now).len() ==> {
                let order = #[trigger] matched_book(book, request, ack_id, now)[k];
                ||| rests(book, request, now) && order == resting_order(
                    request,
                    unfilled(book, request, now),
                    ack_id,
                    now,
                )
                ||| exists|j: int| 0 <= j < book.len() && stems_from(order, book[j])
            },
{
    let working = ranked(book, Ranking::SidePriority);
    let swept = match_sweep(book, request, now);
    let residue = if rests(book, request, now) {
        seq![resting_order(request, swept.remaining, ack_id, now)]
    } else {
        Seq::empty()
    };
    let after = matched_book(book, request, ack_id, now);
    lemma_ranked_members(book, Ranking::SidePriority);
    lemma_sweep_survivors(working, request, request.volume.units as nat, now);
    lemma_ranked_members(swept.book + residue, Ranking::SidePriceDescending);
    assert forall|k: int| 0 <= k < after.len() implies {
        let order = #[trigger] after[k];
        ||| rests(book, request, now) && order == resting_order(request, unfilled(book, request, now), ack_id, now)
        ||| exists|j: int| 0 <= j < book.len() && stems_from(order, book[j])
    } by {
        let order = after[k];
        assert((swept.book + residue).contains(order));
        let m = choose|m: int| 0 <= m < (swept.book + residue).len() && (swept.book + residue)[m] == order;
        if m < swept.book.len() {
            assert(swept.book[m] == order);
            let w = choose|w: int| 0 <= w < working.len() && stems_from(swept.book[m], working[w]);
            assert(book.contains(working[w]));
            let j = choose|j: int| 0 <= j < book.len() && book[j] == working[w];
            assert(stems_from(order, book[j]));
        } else {
            assert(residue[m - swept.book.len()] == order);
        }
    }
}

/// Where a limit submission is not filled whole, exactly one new order
/// comes to rest: the book after the match holds what the walk left and,
/// once, an order of the unfilled volume at the submitted price on the
/// submission's own side (a bid for a buy, an ask for a sell), under the
/// id of the acknowledgement. Nothing that the submission crosses is then
/// left in the book. Where nothing rests, the book holds what the walk left.
pub proof fn law_residue_rests(book: Seq<Order>, request: OrderRequest, ack_id: u128, now: String)
    ensures
        rests(book, request, now) ==> {
            let resting = resting_order(request, unfilled(book, request, now), ack_id, now);
            &&& matched_book(book, request, ack_id, now).to_multiset() == match_sweep(
                book,
                request,
                now,
            ).book.to_multiset().insert(resting)
            &&& matched_book(book, request, ack_id, now).len() == match_sweep(book, request, now).book.len()
                + 1
            &&& resting.volume.units == unfilled(book, request, now)
            &&& resting.price == request.price
            &&& resting.side == request.side.spec_resting_side()
            &&& resting.order_type == OrderType::Limit
            &&& resting.id == ack_id
            &&& forall|k: int|
                0 <= k < match_sweep(book, request, now).book.len() ==> !crosses(
                    request,
                    #[trigger] match_sweep(book, request, now).book[k],
                )
        },
        !rests(book, request, now) ==> matched_book(book, request, ack_id, now).to_multiset()
            == match_sweep(book, request, now).book.to_multiset(),
{
    broadcast use vstd::seq_lib::group_to_multiset_ensures;

    let swept = match_sweep(book, request, now);
    lemma_sweep_survivors(ranked(book, Ranking::SidePriority), request, request.volume.units as nat, now);
    lemma_sweep_volume(ranked(book, Ranking::SidePriority), request, request.volume.units as nat, now);
    if rests(book, request, now) {
        let resting = resting_order(request, swept.remaining, ack_id, now);
        assert(swept.book + seq![resting] == swept.book.push(resting));
        lemma_ranked_permutes(swept.book.push(resting), Ranking::SidePriceDescending);
        crate::ranking::lemma_ranked_len(swept.book.push(resting), Ranking::SidePriceDescending);
        assert(swept.remaining <= request.volume.units);
    } else {
        assert(swept.book + Seq::<Order>::empty() == swept.book);
        lemma_ranked_permutes(swept.book, Ranking::SidePriceDescending);
    }
}

/// A book that holds only limit orders with volume left holds only such
/// orders after any match: no order is left with nothing open, and no
/// market order ever rests.
pub proof fn law_book_stays_sound(book: Seq<Order>, request: OrderRequest, ack_id: u128, now: String)
    requires
        resting_ok(book),
    ensures
        resting_ok(matched_book(book, request, ack_id, now)),
{
    let working = ranked(book, Ranking::SidePriority);
    let swept = match_sweep(book, request, now);
    let residue = if rests(book, request, now) {
        seq![resting_order(request, swept.remaining, ack_id, now)]
    } else {
        Seq::empty()
    };
    let after = matched_book(book, request, ack_id, now);
    lemma_ranked_members(book, Ranking::SidePriority);
    assert(resting_ok(working)) by {
        assert forall|k: int| 0 <= k < working.len() implies (#[trigger] working[k]).volume.units > 0
            && working[k].order_type == OrderType::Limit by {
            assert(book.contains(working[k]));
        }
    }
    lemma_sweep_survivors(working, request, request.volume.units as nat, now);
    lemma_sweep_volume(working, request, request.volume.units as nat, now);
    lemma_ranked_members(swept.book + residue, Ranking::SidePriceDescending);
    assert forall|k: int| 0 <= k < after.len() implies (#[trigger] after[k]).volume.units > 0
        && after[k].order_type == OrderType::Limit by {
        assert((swept.book + residue).contains(after[k]));
        let m = choose|m: int| 0 <= m < (swept.book + residue).len() && (swept.book + residue)[m] == after[k];
        if m < swept.book.len() {
            assert(swept.book[m] == after[k]);
        } else {
            assert(residue[m - swept.book.len()] == after[k]);
            assert(swept.remaining <= request.volume.units);
        }
    }
}


/// The list that `ledger` has for `trader`; empty where it has none.
pub open spec fn listed_in(ledger: Map<Seq<char>, Seq<Trade>>, trader: Seq<char>) -> Seq<Trade> {
    if ledger.contains_key(trader) {
        ledger[trader]
    } else {
        Seq::empty()
    }
}

/// The records of the submissions of `trader`, in intake order: for each
/// of them its acknowledgement and then its fills, against the books as
/// the submissions in front of it, of whatever trader, left them.
pub open spec fn records_for(
    books: Map<Seq<char>, Seq<Order>>,
    submissions: Seq<Submission>,
    trader: Seq<char>,
) -> Seq<Trade>
    decreases submissions.len(),
{
    if submissions.len() == 0 {
        Seq::empty()
    } else {
        let last = submissions.last();
        let earlier = records_for(books, submissions.drop_last(), trader);
        if last.request.trader@ == trader {
            earlier + submission_records(
                books_after_all(books, submissions.drop_last()),
                last.request,
                last.ack_id,
                last.now,
            )
        } else {
            earlier
        }
    }
}

/// A trader's ledger grows in intake order: after any run of submissions
/// it holds what it held, followed by the records of the trader's own
/// submissions in the order in which they were taken in, the records of
/// each submission together, acknowledgement first. Submissions of other
/// traders add nothing to it.
pub proof fn law_ledger_order(
    ledger: Map<Seq<char>, Seq<Trade>>,
    books: Map<Seq<char>, Seq<Order>>,
    submissions: Seq<Submission>,
    trader: Seq<char>,
)
    ensures
        listed_in(ledger_after_all(ledger, books, submissions), trader) == listed_in(ledger, trader)
            + records_for(books, submissions, trader),
        ledger.contains_key(trader) ==> ledger_after_all(ledger, books, submissions).contains_key(trader),
    decreases submissions.len(),
{
    if submissions.len() == 0 {
        assert(listed_in(ledger, trader) + Seq::<Trade>::empty() == listed_in(ledger, trader));
    } else {
        let last = submissions.last();
        let earlier = submissions.drop_last();
        law_ledger_order(ledger, books, earlier, trader);
        let records = submission_records(books_after_all(books, earlier), last.request, last.ack_id, last.now);
        if last.request.trader@ == trader {
            assert((listed_in(ledger, trader) + records_for(books, earlier, trader)) + records == listed_in(
                ledger,
                trader,
            ) + (records_for(books, earlier, trader) + records));
        }
    }
}


/// A record put in anywhere adds itself to what the sequence holds.
proof fn lemma_insert_multiset(s: Seq<OrderRecord>, p: int, x: OrderRecord)
    requires
        0 <= p <= s.len(),
    ensures
        s.insert(p, x).to_multiset() == s.to_multiset().insert(x),
{
    broadcast use vstd::seq_lib::group_to_multiset_ensures;

    let r = s.insert(p, x);
    assert(r.remove(p) == s);
    assert(r[p] == x);
    assert(r.contains(x));
    assert(r.to_multiset().count(x) > 0);
    assert(r.to_multiset().remove(x) == s.to_multiset());
    assert(r.to_multiset() =~= s.to_multiset().insert(x));
}

/// Sorting keeps what a snapshot keeps of the orders: each record as
/// often as before.
proof fn lemma_ranked_records(orders: Seq<Order>, ranking: Ranking)
    ensures
        records_of(ranked(orders, ranking)).to_multiset() == records_of(orders).to_multiset(),
        ranked(orders, ranking).len() == orders.len(),
    decreases orders.len(),
{
    broadcast use vstd::seq_lib::group_to_multiset_ensures;

    if orders.len() == 0 {
        assert(records_of(ranked(orders, ranking)) =~= records_of(orders));
    } else {
        let front = ranked(orders.drop_last(), ranking);
        let x = orders.last();
        let p = insertion_point(front, x, ranking);
        lemma_ranked_records(orders.drop_last(), ranking);
        lemma_insertion_point(front, x, ranking);
        assert(records_of(front.insert(p, x)) =~= records_of(front).insert(p, record_of(x)));
        lemma_insert_multiset(records_of(front), p, record_of(x));
        assert(records_of(orders) =~= records_of(orders.drop_last()).push(record_of(x)));
    }
}

/// A snapshot round trip keeps the book: the rows written for a book,
/// read back, stand for what a snapshot keeps of the orders of the book
/// in its layout; and a book loaded from rows that were read back as
/// written holds as many orders as the book persisted, and the same ones
/// under price, volume, side, timestamp and order type, each as often.
/// Ids are not kept. The bytes of a checked snapshot are read back as the
/// rows that were written.
pub proof fn law_snapshot_round_trip(book: Seq<Order>, sort_by_side: bool, loaded: Seq<Order>)
    requires
        loaded_from(loaded, rows_records(read_back(snapshot_rows_of(book, sort_by_side)))),
    ensures
        rows_records(read_back(snapshot_rows_of(book, sort_by_side))) == records_of(
            snapshot_layout(book, sort_by_side),
        ),
        records_of(loaded).to_multiset() == records_of(book).to_multiset(),
        loaded.len() == book.len(),
{
    let layout = snapshot_layout(book, sort_by_side);
    let rows = snapshot_rows_of(book, sort_by_side);
    lemma_snapshot_rows_read_back(book, sort_by_side);
    if sort_by_side {
        lemma_ranked_records(book, Ranking::SidePriceDescending);
    }
    let orders = choose|orders: Seq<Order>|
        records_of(orders) == rows_records(read_back(rows)) && loaded == ranked(orders, Ranking::SidePriority);
    lemma_ranked_records(orders, Ranking::SidePriority);
    assert(orders.len() == records_of(orders).len());
    assert(layout.len() == records_of(layout).len());
}

} // verus!
