use orderbook::decimal::Decimal;
use orderbook::matching::{match_order, request_crosses};
use orderbook::order::{Direction, Order, OrderRequest, OrderType, Side, Trade, TradeSide, TradeStatus};

fn dec(text: &str) -> Decimal {
    Decimal::parse(text).unwrap()
}

fn resting(id: u128, side: Side, price: &str, volume: &str) -> Order {
    Order {
        id,
        price: dec(price),
        volume: dec(volume),
        side,
        timestamp: "2024-05-01T10:00:00+00:00".to_string(),
        order_type: OrderType::Limit,
    }
}

fn request(side: Direction, order_type: OrderType, price: &str, volume: &str) -> OrderRequest {
    OrderRequest {
        pair: "XXBTZUSD".to_string(),
        volume: dec(volume),
        side,
        order_type,
        price: dec(price),
        trader: "T".to_string(),
    }
}

fn now() -> String {
    "2024-05-01T12:00:00+00:00".to_string()
}

fn content(book: &Vec<Order>) -> Vec<(u128, Side, Decimal, Decimal)> {
    let mut rows: Vec<(u128, Side, Decimal, Decimal)> =
        book.iter().map(|o| (o.id, o.side, o.price, o.volume)).collect();
    rows.sort_by_key(|r| (r.0, r.2, r.3));
    rows
}

fn fills(trades: &Vec<Trade>) -> Vec<(TradeStatus, TradeSide, Decimal, Decimal)> {
    trades.iter().map(|t| (t.status, t.side, t.price, t.volume)).collect()
}

#[test]
fn market_buy_takes_part_of_the_best_ask() {
    let book = vec![resting(1, Side::Ask, "65290.1", "0.5"), resting(2, Side::Ask, "65295.0", "1.0")];
    let m = match_order(&book, &request(Direction::Buy, OrderType::Market, "0.0", "0.3"), 77, &now());
    assert_eq!(
        fills(&m.trades),
        vec![(TradeStatus::PartiallyFilled, TradeSide::Ask, dec("65290.1"), dec("0.3"))]
    );
    assert_eq!(
        content(&m.book),
        vec![(1, Side::Ask, dec("65290.1"), dec("0.2")), (2, Side::Ask, dec("65295.0"), dec("1.0"))]
    );
    assert_eq!(m.remaining, dec("0"));
    assert_eq!(m.trades[0].id, 1);
    assert_eq!(m.trades[0].trader, "T");
    assert_eq!(m.trades[0].pair, "XXBTZUSD");
    assert_eq!(m.trades[0].timestamp, now());
    assert_eq!(m.trades[0].order_type, OrderType::Limit);
}

#[test]
fn market_buy_fills_one_ask_and_part_of_the_next() {
    let book = vec![resting(1, Side::Ask, "65290.1", "0.5"), resting(2, Side::Ask, "65295.0", "1.0")];
    let m = match_order(&book, &request(Direction::Buy, OrderType::Market, "0.0", "0.6"), 77, &now());
    assert_eq!(
        fills(&m.trades),
        vec![
            (TradeStatus::Filled, TradeSide::Ask, dec("65290.1"), dec("0.5")),
            (TradeStatus::PartiallyFilled, TradeSide::Ask, dec("65295.0"), dec("0.1")),
        ]
    );
    assert_eq!(content(&m.book), vec![(2, Side::Ask, dec("65295.0"), dec("0.9"))]);
    assert_eq!(m.remaining, dec("0"));
}

#[test]
fn limit_sell_that_does_not_cross_rests() {
    let book = vec![resting(1, Side::Bid, "65280.0", "1.0")];
    let m = match_order(&book, &request(Direction::Sell, OrderType::Limit, "65290.0", "2.0"), 77, &now());
    assert!(m.trades.is_empty());
    assert_eq!(m.remaining, dec("2.0"));
    assert_eq!(
        content(&m.book),
        vec![(1, Side::Bid, dec("65280.0"), dec("1.0")), (77, Side::Ask, dec("65290.0"), dec("2.0"))]
    );
    // asks stand in front of bids in the book as it is written back
    assert_eq!(m.book[0].id, 77);
    assert_eq!(m.book[0].order_type, OrderType::Limit);
    assert_eq!(m.book[0].timestamp, now());
    assert_eq!(m.book[1].id, 1);
}

#[test]
fn limit_buy_that_crosses_takes_the_ask_price() {
    let book = vec![resting(1, Side::Ask, "100", "1.0")];
    let m = match_order(&book, &request(Direction::Buy, OrderType::Limit, "110", "0.4"), 77, &now());
    assert_eq!(
        fills(&m.trades),
        vec![(TradeStatus::PartiallyFilled, TradeSide::Ask, dec("100"), dec("0.4"))]
    );
    assert_eq!(content(&m.book), vec![(1, Side::Ask, dec("100"), dec("0.6"))]);
}

#[test]
fn market_order_on_an_empty_book_fills_nothing_and_does_not_rest() {
    let book: Vec<Order> = Vec::new();
    let m = match_order(&book, &request(Direction::Buy, OrderType::Market, "0", "5"), 77, &now());
    assert!(m.trades.is_empty());
    assert!(m.book.is_empty());
    assert_eq!(m.remaining, dec("5"));
}

#[test]
fn market_residue_is_dropped() {
    let book = vec![resting(1, Side::Ask, "100", "1.0"), resting(2, Side::Bid, "90", "1.0")];
    let m = match_order(&book, &request(Direction::Buy, OrderType::Market, "0", "3"), 77, &now());
    assert_eq!(fills(&m.trades), vec![(TradeStatus::Filled, TradeSide::Ask, dec("100"), dec("1.0"))]);
    assert_eq!(content(&m.book), vec![(2, Side::Bid, dec("90"), dec("1.0"))]);
    assert_eq!(m.remaining, dec("2"));
}

#[test]
fn filled_volume_is_the_smaller_of_wanted_and_offered() {
    let book = vec![
        resting(1, Side::Ask, "101", "0.25"),
        resting(2, Side::Bid, "99", "7"),
        resting(3, Side::Ask, "100", "0.5"),
        resting(4, Side::Ask, "102", "1"),
    ];
    for (wanted, filled) in [("0.1", "0.1"), ("0.75", "0.75"), ("1.75", "1.75"), ("9", "1.75")] {
        let m = match_order(&book, &request(Direction::Buy, OrderType::Market, "0", wanted), 77, &now());
        let total: u64 = m.trades.iter().map(|t| t.volume.units).sum();
        assert_eq!(total, dec(filled).units);
        assert_eq!(m.remaining.units, dec(wanted).units - dec(filled).units);
    }
}

#[test]
fn asks_are_consumed_by_ascending_price() {
    let book = vec![
        resting(1, Side::Ask, "103", "1"),
        resting(2, Side::Ask, "101", "1"),
        resting(3, Side::Bid, "99", "1"),
        resting(4, Side::Ask, "102", "1"),
        resting(5, Side::Ask, "101", "1"),
    ];
    let m = match_order(&book, &request(Direction::Buy, OrderType::Market, "0", "3.5"), 77, &now());
    let ids: Vec<u128> = m.trades.iter().map(|t| t.id).collect();
    assert_eq!(ids, vec![2, 5, 4, 1]);
    let prices: Vec<Decimal> = m.trades.iter().map(|t| t.price).collect();
    assert_eq!(prices, vec![dec("101"), dec("101"), dec("102"), dec("103")]);
    assert_eq!(m.trades[3].status, TradeStatus::PartiallyFilled);
    assert_eq!(m.trades[3].volume, dec("0.5"));
}

#[test]
fn bids_are_consumed_by_descending_price() {
    let book = vec![
        resting(1, Side::Bid, "97", "1"),
        resting(2, Side::Bid, "99", "1"),
        resting(3, Side::Ask, "105", "1"),
        resting(4, Side::Bid, "98", "1"),
    ];
    let m = match_order(&book, &request(Direction::Sell, OrderType::Market, "0", "2.5"), 77, &now());
    let ids: Vec<u128> = m.trades.iter().map(|t| t.id).collect();
    assert_eq!(ids, vec![2, 4, 1]);
    assert_eq!(m.trades[0].side, TradeSide::Bid);
}

#[test]
fn limit_buy_stops_at_its_price_and_rests_the_residue() {
    let book = vec![
        resting(1, Side::Ask, "100", "1"),
        resting(2, Side::Ask, "101", "1"),
        resting(3, Side::Ask, "102", "1"),
    ];
    let m = match_order(&book, &request(Direction::Buy, OrderType::Limit, "101", "5"), 77, &now());
    assert_eq!(
        fills(&m.trades),
        vec![
            (TradeStatus::Filled, TradeSide::Ask, dec("100"), dec("1")),
            (TradeStatus::Filled, TradeSide::Ask, dec("101"), dec("1")),
        ]
    );
    assert_eq!(m.remaining, dec("3"));
    assert_eq!(
        content(&m.book),
        vec![(3, Side::Ask, dec("102"), dec("1")), (77, Side::Bid, dec("101"), dec("3"))]
    );
    let resting_count = m.book.iter().filter(|o| o.id == 77).count();
    assert_eq!(resting_count, 1);
    // nothing that the order could have matched is left
    assert!(m.book.iter().all(|o| !(o.side == Side::Ask && o.price.units <= dec("101").units)));
}

#[test]
fn limit_sell_crosses_bids_at_or_above_its_price() {
    let book = vec![resting(1, Side::Bid, "100", "1"), resting(2, Side::Bid, "99", "1")];
    let m = match_order(&book, &request(Direction::Sell, OrderType::Limit, "100", "3"), 77, &now());
    assert_eq!(fills(&m.trades), vec![(TradeStatus::Filled, TradeSide::Bid, dec("100"), dec("1"))]);
    assert_eq!(
        content(&m.book),
        vec![(2, Side::Bid, dec("99"), dec("1")), (77, Side::Ask, dec("100"), dec("2"))]
    );
}

#[test]
fn book_is_written_back_with_asks_first_and_prices_descending() {
    let book = vec![
        resting(1, Side::Bid, "98", "1"),
        resting(2, Side::Ask, "101", "1"),
        resting(3, Side::Bid, "99", "1"),
        resting(4, Side::Ask, "103", "1"),
        resting(5, Side::Ask, "101", "2"),
    ];
    let m = match_order(&book, &request(Direction::Buy, OrderType::Limit, "100", "1"), 77, &now());
    let ids: Vec<u128> = m.book.iter().map(|o| o.id).collect();
    assert_eq!(ids, vec![4, 2, 5, 77, 3, 1]);
}

#[test]
fn no_resting_order_is_left_empty_or_of_market_type() {
    let book = vec![
        resting(1, Side::Ask, "100", "0.5"),
        resting(2, Side::Ask, "101", "0.5"),
        resting(3, Side::Bid, "99", "0.5"),
    ];
    for wanted in ["0.5", "0.7", "1", "4"] {
        for order_type in [OrderType::Market, OrderType::Limit] {
            let m = match_order(&book, &request(Direction::Buy, order_type, "100.5", wanted), 77, &now());
            assert!(m.book.iter().all(|o| o.volume.units > 0 && o.order_type == OrderType::Limit));
        }
    }
}

#[test]
fn a_request_of_no_volume_records_an_empty_partial_fill() {
    let book = vec![resting(1, Side::Ask, "100", "1")];
    let m = match_order(&book, &request(Direction::Buy, OrderType::Market, "0", "0"), 77, &now());
    assert_eq!(fills(&m.trades), vec![(TradeStatus::PartiallyFilled, TradeSide::Ask, dec("100"), dec("0"))]);
    assert_eq!(content(&m.book), vec![(1, Side::Ask, dec("100"), dec("1"))]);
}

#[test]
fn crossing_follows_side_type_and_price() {
    let ask = resting(1, Side::Ask, "100", "1");
    let bid = resting(2, Side::Bid, "100", "1");
    assert!(request_crosses(&request(Direction::Buy, OrderType::Market, "0", "1"), &ask));
    assert!(!request_crosses(&request(Direction::Buy, OrderType::Market, "0", "1"), &bid));
    assert!(request_crosses(&request(Direction::Sell, OrderType::Market, "0", "1"), &bid));
    assert!(request_crosses(&request(Direction::Buy, OrderType::Limit, "100", "1"), &ask));
    assert!(!request_crosses(&request(Direction::Buy, OrderType::Limit, "99.99", "1"), &ask));
    assert!(request_crosses(&request(Direction::Sell, OrderType::Limit, "100", "1"), &bid));
    assert!(!request_crosses(&request(Direction::Sell, OrderType::Limit, "100.01", "1"), &bid));
}
