use orderbook::decimal::Decimal;
use orderbook::order::{Direction, Order, OrderRequest, OrderType, Side, Trade, TradeSide, TradeStatus};
use orderbook::service::{intake_reply, Fetched, OrderBookService, ServiceError, Submission};
use orderbook::store::{BookStore, Registry};

fn dec(text: &str) -> Decimal {
    Decimal::parse(text).unwrap()
}

fn resting(id: u128, side: Side, price: &str, volume: &str) -> Order {
    Order {
        id,
        price: dec(price),
        volume: dec(volume),
        side,
        timestamp: "2024-05-01T10:00:00+00:00".to_string(),
        order_type: OrderType::Limit,
    }
}

fn request(trader: &str, side: Direction, order_type: OrderType, price: &str, volume: &str) -> OrderRequest {
    OrderRequest {
        pair: "XXBTZUSD".to_string(),
        volume: dec(volume),
        side,
        order_type,
        price: dec(price),
        trader: trader.to_string(),
    }
}

fn service_with(book: Vec<Order>) -> OrderBookService {
    let mut books: BookStore = Registry::new();
    books.replace("XXBTZUSD", book);
    OrderBookService::new(books)
}

fn summary(trades: &Vec<Trade>) -> Vec<(TradeStatus, TradeSide, Decimal, Decimal)> {
    trades.iter().map(|t| (t.status, t.side, t.price, t.volume)).collect()
}

#[test]
fn test_get_order_book() {
    let mut service = OrderBookService::new(Registry::new());
    let pair = "XXBTZUSD".to_string();
    let order = Order {
        id: 1,
        price: dec("50000.0"),
        volume: dec("1.0"),
        side: Side::Ask,
        timestamp: "2024-05-01T10:00:00+00:00".to_string(),
        order_type: OrderType::Limit,
    };
    service.order_books.replace(&pair, vec![order.clone()]);

    let response = service.get_order_book(&pair).unwrap();

    assert_eq!(response.len(), 1);
    assert_eq!(response[0].0, dec("50000.0"));
    assert_eq!(response[0].1, dec("1.0"));
}

#[test]
fn test_place_market_order() {
    let response = intake_reply(true).unwrap();
    assert_eq!(response.status, "new");
    assert_eq!(response.message, "order registered and is being processed");
    assert_eq!(intake_reply(false), Err(ServiceError::Internal));
}

#[test]
fn test_get_trade_book() {
    let mut service = OrderBookService::new(Registry::new());
    let trader = "trader1".to_string();
    let trade = Trade {
        id: 9,
        trader: trader.clone(),
        pair: "XXBTZUSD".to_string(),
        price: dec("50000.0"),
        volume: dec("1.0"),
        side: TradeSide::Buy,
        timestamp: "2024-05-01T10:00:00+00:00".to_string(),
        order_type: OrderType::Market,
        status: TradeStatus::Filled,
    };
    service.trade_books.replace(&trader, vec![trade.clone()]);

    let response = service.get_trade_book(&trader).unwrap();

    assert_eq!(response.len(), 1);
    assert_eq!(response[0].id, trade.id);
    assert_eq!(response[0].trader, trade.trader);
    assert_eq!(response[0].pair, trade.pair);
    assert_eq!(response[0].price, trade.price);
    assert_eq!(response[0].volume, trade.volume);
    assert_eq!(response[0].side, trade.side);
    assert_eq!(response[0].timestamp, trade.timestamp);
    assert_eq!(response[0].order_type, trade.order_type);
    assert_eq!(response[0].status, trade.status);
}

#[test]
fn test_fetch_order_books() {
    let mut service = OrderBookService::new(Registry::new());
    let fetched = vec![
        Fetched { symbol: "XXBTZUSD".to_string(), book: Some(vec![resting(1, Side::Ask, "100", "1")]) },
        Fetched { symbol: "XETHZUSD".to_string(), book: None },
    ];
    service.refresh(&fetched);
    assert!(service.order_books.contains("XXBTZUSD"));
    assert!(service.order_books.contains("XETHZUSD"));
    assert_eq!(service.get_order_book("XXBTZUSD").unwrap(), vec![(dec("100"), dec("1"))]);
    assert_eq!(service.get_order_book("XETHZUSD").unwrap(), vec![]);
}

#[test]
fn queries_for_what_is_absent_are_not_found() {
    let service = OrderBookService::new(Registry::new());
    assert_eq!(service.get_order_book("XXBTZUSD"), Err(ServiceError::NotFound));
    assert_eq!(service.get_trade_book("nobody"), Err(ServiceError::NotFound));
}

#[test]
fn refresh_replaces_a_book_whole_and_leaves_the_others() {
    let mut service = service_with(vec![resting(1, Side::Ask, "100", "1"), resting(2, Side::Bid, "90", "1")]);
    service.order_books.replace("XETHZUSD", vec![resting(3, Side::Ask, "5", "1")]);
    service.refresh(&vec![Fetched { symbol: "XXBTZUSD".to_string(), book: Some(vec![resting(4, Side::Bid, "95", "2")]) }]);
    assert_eq!(service.get_order_book("XXBTZUSD").unwrap(), vec![(dec("95"), dec("2"))]);
    assert_eq!(service.get_order_book("XETHZUSD").unwrap(), vec![(dec("5"), dec("1"))]);
    service.refresh(&vec![Fetched { symbol: "XXBTZUSD".to_string(), book: None }]);
    assert_eq!(service.get_order_book("XXBTZUSD").unwrap(), vec![]);
}

#[test]
fn market_buy_is_acknowledged_and_partially_filled() {
    let mut service =
        service_with(vec![resting(1, Side::Ask, "65290.1", "0.5"), resting(2, Side::Ask, "65295.0", "1.0")]);
    let now = "2024-05-01T12:00:00+00:00".to_string();
    let matched = service.apply_order(&request("T", Direction::Buy, OrderType::Market, "0.0", "0.3"), 77, &now);
    assert!(matched);
    let ledger = service.get_trade_book("T").unwrap();
    assert_eq!(
        summary(&ledger),
        vec![
            (TradeStatus::New, TradeSide::Buy, dec("0.0"), dec("0.3")),
            (TradeStatus::PartiallyFilled, TradeSide::Ask, dec("65290.1"), dec("0.3")),
        ]
    );
    assert_eq!(ledger[0].id, 77);
    assert_eq!(ledger[0].order_type, OrderType::Market);
    assert_eq!(ledger[0].timestamp, now);
    let mut book = service.get_order_book("XXBTZUSD").unwrap();
    book.sort();
    assert_eq!(book, vec![(dec("65290.1"), dec("0.2")), (dec("65295.0"), dec("1.0"))]);
}

#[test]
fn market_buy_over_two_asks() {
    let mut service =
        service_with(vec![resting(1, Side::Ask, "65290.1", "0.5"), resting(2, Side::Ask, "65295.0", "1.0")]);
    let now = "2024-05-01T12:00:00+00:00".to_string();
    service.apply_order(&request("T", Direction::Buy, OrderType::Market, "0.0", "0.6"), 77, &now);
    assert_eq!(
        summary(&service.get_trade_book("T").unwrap()),
        vec![
            (TradeStatus::New, TradeSide::Buy, dec("0.0"), dec("0.6")),
            (TradeStatus::Filled, TradeSide::Ask, dec("65290.1"), dec("0.5")),
            (TradeStatus::PartiallyFilled, TradeSide::Ask, dec("65295.0"), dec("0.1")),
        ]
    );
    assert_eq!(service.get_order_book("XXBTZUSD").unwrap(), vec![(dec("65295.0"), dec("0.9"))]);
}

#[test]
fn limit_sell_above_the_bid_only_rests() {
    let mut service = service_with(vec![resting(1, Side::Bid, "65280.0", "1.0")]);
    let now = "2024-05-01T12:00:00+00:00".to_string();
    service.apply_order(&request("T", Direction::Sell, OrderType::Limit, "65290.0", "2.0"), 77, &now);
    assert_eq!(
        summary(&service.get_trade_book("T").unwrap()),
        vec![(TradeStatus::New, TradeSide::Sell, dec("65290.0"), dec("2.0"))]
    );
    let mut book = service.get_order_book("XXBTZUSD").unwrap();
    book.sort();
    assert_eq!(book, vec![(dec("65280.0"), dec("1.0")), (dec("65290.0"), dec("2.0"))]);
}

#[test]
fn limit_buy_above_the_ask_is_filled_at_the_ask() {
    let mut service = service_with(vec![resting(1, Side::Ask, "100", "1.0")]);
    let now = "2024-05-01T12:00:00+00:00".to_string();
    service.apply_order(&request("T", Direction::Buy, OrderType::Limit, "110", "0.4"), 77, &now);
    assert_eq!(
        summary(&service.get_trade_book("T").unwrap()),
        vec![
            (TradeStatus::New, TradeSide::Buy, dec("110"), dec("0.4")),
            (TradeStatus::PartiallyFilled, TradeSide::Ask, dec("100"), dec("0.4")),
        ]
    );
    assert_eq!(service.get_order_book("XXBTZUSD").unwrap(), vec![(dec("100"), dec("0.6"))]);
}

#[test]
fn market_buy_on_an_empty_book_is_only_acknowledged() {
    let mut service = service_with(vec![]);
    let now = "2024-05-01T12:00:00+00:00".to_string();
    let matched = service.apply_order(&request("T", Direction::Buy, OrderType::Market, "0", "5"), 77, &now);
    assert!(matched);
    assert_eq!(
        summary(&service.get_trade_book("T").unwrap()),
        vec![(TradeStatus::New, TradeSide::Buy, dec("0"), dec("5"))]
    );
    assert_eq!(service.get_order_book("XXBTZUSD").unwrap(), vec![]);
}

#[test]
fn order_for_an_unknown_instrument_is_only_acknowledged() {
    let mut service = OrderBookService::new(Registry::new());
    let now = "2024-05-01T12:00:00+00:00".to_string();
    let matched = service.apply_order(&request("T", Direction::Buy, OrderType::Limit, "10", "5"), 77, &now);
    assert!(!matched);
    assert_eq!(
        summary(&service.get_trade_book("T").unwrap()),
        vec![(TradeStatus::New, TradeSide::Buy, dec("10"), dec("5"))]
    );
    assert_eq!(service.get_order_book("XXBTZUSD"), Err(ServiceError::NotFound));
}

#[test]
fn a_resting_limit_is_consumed_by_a_later_market_order() {
    let mut service = service_with(vec![]);
    let first = Submission {
        request: request("T", Direction::Buy, OrderType::Limit, "100", "1"),
        ack_id: 11,
        now: "2024-05-01T12:00:00+00:00".to_string(),
    };
    let second = Submission {
        request: request("T", Direction::Sell, OrderType::Market, "0", "1"),
        ack_id: 22,
        now: "2024-05-01T12:00:01+00:00".to_string(),
    };
    service.apply_all(&vec![first, second]);
    let ledger = service.get_trade_book("T").unwrap();
    assert_eq!(
        summary(&ledger),
        vec![
            (TradeStatus::New, TradeSide::Buy, dec("100"), dec("1")),
            (TradeStatus::New, TradeSide::Sell, dec("0"), dec("1")),
            (TradeStatus::Filled, TradeSide::Bid, dec("100"), dec("1")),
        ]
    );
    assert_eq!(ledger[0].id, 11);
    assert_eq!(ledger[1].id, 22);
    // the fill names the order that rested for the first submission
    assert_eq!(ledger[2].id, 11);
    assert_eq!(service.get_order_book("XXBTZUSD").unwrap(), vec![]);
}

#[test]
fn each_ledger_keeps_intake_order_with_the_records_of_a_submission_together() {
    let mut service = service_with(vec![resting(1, Side::Ask, "100", "1"), resting(2, Side::Ask, "101", "1")]);
    let subs = vec![
        Submission { request: request("A", Direction::Buy, OrderType::Market, "0", "0.5"), ack_id: 10, now: "t1".to_string() },
        Submission { request: request("B", Direction::Buy, OrderType::Market, "0", "1"), ack_id: 20, now: "t2".to_string() },
        Submission { request: request("A", Direction::Sell, OrderType::Limit, "105", "2"), ack_id: 30, now: "t3".to_string() },
    ];
    service.apply_all(&subs);
    let a: Vec<(u128, TradeStatus)> = service.get_trade_book("A").unwrap().iter().map(|t| (t.id, t.status)).collect();
    let b: Vec<(u128, TradeStatus)> = service.get_trade_book("B").unwrap().iter().map(|t| (t.id, t.status)).collect();
    assert_eq!(a, vec![(10, TradeStatus::New), (1, TradeStatus::PartiallyFilled), (30, TradeStatus::New)]);
    assert_eq!(b, vec![(20, TradeStatus::New), (1, TradeStatus::Filled), (2, TradeStatus::PartiallyFilled)]);
}

#[test]
fn process_order_draws_an_id_and_a_timestamp() {
    let mut service = service_with(vec![resting(1, Side::Ask, "100", "1")]);
    let first = service.process_order(&request("T", Direction::Buy, OrderType::Limit, "90", "1"));
    let second = service.process_order(&request("T", Direction::Buy, OrderType::Limit, "91", "1"));
    assert!(first.matched && second.matched);
    assert_ne!(first.ack_id, second.ack_id);
    assert!(first.timestamp.len() >= 20 && first.timestamp.contains('T'));
    let ledger = service.get_trade_book("T").unwrap();
    assert_eq!(ledger.len(), 2);
    assert_eq!(ledger[0].id, first.ack_id);
    assert_eq!(ledger[0].timestamp, first.timestamp);
    assert_eq!(ledger[1].id, second.ack_id);
    let book = service.order_books.get("XXBTZUSD").unwrap();
    assert!(book.iter().any(|o| o.id == first.ack_id && o.side == Side::Bid && o.price == dec("90")));
    assert!(book.iter().any(|o| o.id == second.ack_id && o.timestamp == second.timestamp));
}
