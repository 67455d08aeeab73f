use orderbook::decimal::Decimal;
use orderbook::order::{copy_orders, Direction, Order, OrderRequest, OrderType, Side, Trade, TradeSide, TradeStatus};
use orderbook::ranking::{comes_before, rank_orders, Ranking};
use orderbook::store::Registry;
use orderbook::text::str_eq;

fn order(id: u128, side: Side, price: u64) -> Order {
    Order {
        id,
        price: Decimal { units: price },
        volume: Decimal { units: 1 },
        side,
        timestamp: "t".to_string(),
        order_type: OrderType::Limit,
    }
}

fn ids(orders: &Vec<Order>) -> Vec<u128> {
    orders.iter().map(|o| o.id).collect()
}

#[test]
fn names_are_read_back() {
    for side in [Side::Ask, Side::Bid] {
        assert_eq!(Side::parse(side.name()), Some(side));
    }
    for direction in [Direction::Buy, Direction::Sell] {
        assert_eq!(Direction::parse(direction.name()), Some(direction));
    }
    for order_type in [OrderType::Limit, OrderType::Market] {
        assert_eq!(OrderType::parse(order_type.name()), Some(order_type));
    }
    assert_eq!((Side::Ask.name(), Side::Bid.name()), ("ask", "bid"));
    assert_eq!((Direction::Buy.name(), Direction::Sell.name()), ("buy", "sell"));
    assert_eq!((OrderType::Limit.name(), OrderType::Market.name()), ("limit", "market"));
    assert_eq!(TradeStatus::New.name(), "new");
    assert_eq!(TradeStatus::PartiallyFilled.name(), "partially_filled");
    assert_eq!(TradeStatus::Filled.name(), "filled");
    assert_eq!(TradeSide::Buy.name(), "buy");
    assert_eq!(TradeSide::Sell.name(), "sell");
    assert_eq!(TradeSide::Ask.name(), "ask");
    assert_eq!(TradeSide::Bid.name(), "bid");
}

#[test]
fn unknown_names_are_refused() {
    assert_eq!(Side::parse("buy"), None);
    assert_eq!(Side::parse("Ask"), None);
    assert_eq!(Side::parse(""), None);
    assert_eq!(Direction::parse("ask"), None);
    assert_eq!(OrderType::parse("stop"), None);
}

#[test]
fn a_buy_meets_asks_and_rests_as_a_bid() {
    assert_eq!(Direction::Buy.counter_side(), Side::Ask);
    assert_eq!(Direction::Sell.counter_side(), Side::Bid);
    assert_eq!(Direction::Buy.resting_side(), Side::Bid);
    assert_eq!(Direction::Sell.resting_side(), Side::Ask);
}

#[test]
fn copies_are_equal() {
    let o = order(1, Side::Ask, 5);
    assert_eq!(o.clone(), o);
    assert_eq!(copy_orders(&vec![o.clone(), order(2, Side::Bid, 6)]), vec![o, order(2, Side::Bid, 6)]);
    let t = Trade {
        id: 1,
        trader: "a".to_string(),
        pair: "b".to_string(),
        price: Decimal { units: 1 },
        volume: Decimal { units: 2 },
        side: TradeSide::Ask,
        timestamp: "t".to_string(),
        order_type: OrderType::Limit,
        status: TradeStatus::Filled,
    };
    assert_eq!(t.clone(), t);
    let r = OrderRequest {
        pair: "b".to_string(),
        volume: Decimal { units: 2 },
        side: Direction::Buy,
        order_type: OrderType::Market,
        price: Decimal { units: 1 },
        trader: "a".to_string(),
    };
    assert_eq!(r.clone(), r);
}

#[test]
fn text_is_compared_by_characters() {
    assert!(str_eq("", ""));
    assert!(str_eq("XXBTZUSD", "XXBTZUSD"));
    assert!(!str_eq("XXBTZUSD", "XXBTZUSd"));
    assert!(!str_eq("XXBTZUSD", "XXBTZUS"));
    assert!(str_eq("été", "été"));
}

#[test]
fn sorting_is_stable() {
    let book = vec![
        order(1, Side::Bid, 5),
        order(2, Side::Ask, 7),
        order(3, Side::Bid, 6),
        order(4, Side::Ask, 7),
        order(5, Side::Ask, 6),
        order(6, Side::Bid, 5),
    ];
    assert_eq!(ids(&rank_orders(&book, Ranking::PriceDescending)), vec![2, 4, 3, 5, 1, 6]);
    assert_eq!(ids(&rank_orders(&book, Ranking::SidePriceDescending)), vec![2, 4, 5, 3, 1, 6]);
    assert_eq!(ids(&rank_orders(&book, Ranking::SidePriority)), vec![5, 2, 4, 3, 1, 6]);
    assert!(rank_orders(&Vec::new(), Ranking::SidePriority).is_empty());
}

#[test]
fn ranking_orders_two_orders() {
    let cheap_ask = order(1, Side::Ask, 5);
    let dear_ask = order(2, Side::Ask, 6);
    let bid = order(3, Side::Bid, 9);
    assert!(comes_before(Ranking::PriceDescending, &bid, &dear_ask));
    assert!(!comes_before(Ranking::PriceDescending, &cheap_ask, &cheap_ask));
    assert!(comes_before(Ranking::SidePriceDescending, &cheap_ask, &bid));
    assert!(comes_before(Ranking::SidePriceDescending, &dear_ask, &cheap_ask));
    assert!(comes_before(Ranking::SidePriority, &cheap_ask, &dear_ask));
    assert!(!comes_before(Ranking::SidePriority, &bid, &cheap_ask));
}

#[test]
fn a_registry_keeps_lists_by_key() {
    let mut registry: Registry<u32> = Registry::new();
    assert!(!registry.contains("a"));
    assert_eq!(registry.get("a"), None);
    registry.append("a", 1);
    registry.append("b", 2);
    registry.append("a", 3);
    registry.extend("a", vec![4, 5]);
    registry.extend("c", vec![6]);
    registry.extend("d", vec![]);
    assert_eq!(registry.get("a"), Some(&vec![1, 3, 4, 5]));
    assert_eq!(registry.get("b"), Some(&vec![2]));
    assert_eq!(registry.get("c"), Some(&vec![6]));
    assert_eq!(registry.get("d"), Some(&vec![]));
    registry.replace("a", vec![9]);
    registry.replace("e", vec![8]);
    assert_eq!(registry.get("a"), Some(&vec![9]));
    assert_eq!(registry.get("e"), Some(&vec![8]));
    assert_eq!(registry.shelves.len(), 5);
    assert!(registry.contains("d") && !registry.contains("f"));
}
