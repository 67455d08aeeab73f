use orderbook::decimal::Decimal;
use orderbook::loader::{gather_books, load_order_books, rank_books, SnapshotFile};
use orderbook::order::{Order, OrderType, Side};
use orderbook::ranking::Ranking;
use orderbook::snapshot::{
    decode_snapshot, encode_rows, encode_snapshot, encode_snapshot_checked, join_lines, order_fields,
    order_from_fields, orders_from_rows, reads_back, rows_read_back, same_fields, snapshot_file,
    snapshot_header, snapshot_orders, snapshot_path, snapshot_rows, symbol_of_path,
};
use orderbook::store::{BookStore, Registry};

fn dec(text: &str) -> Decimal {
    Decimal::parse(text).unwrap()
}

fn order(id: u128, side: Side, price: &str, volume: &str) -> Order {
    Order {
        id,
        price: dec(price),
        volume: dec(volume),
        side,
        timestamp: "2024-05-01T10:00:00.123456+00:00".to_string(),
        order_type: OrderType::Limit,
    }
}

fn kept(orders: &Vec<Order>) -> Vec<(Decimal, Decimal, Side, String, OrderType)> {
    orders.iter().map(|o| (o.price, o.volume, o.side, o.timestamp.clone(), o.order_type)).collect()
}

fn strings(fields: &[&str]) -> Vec<String> {
    fields.iter().map(|f| f.to_string()).collect()
}

#[test]
fn test_persist_order_book() {
    let order_books: BookStore = Registry::new();
    let pair = "XXBTZUSD";
    assert!(order_books.get(pair).is_none());
    let result = encode_snapshot(&Vec::new(), false);
    assert!(result.is_some());
    assert!(result.unwrap().is_empty());
    assert_eq!(snapshot_path("data", pair, false), "data/XXBTZUSD_order_book.csv");
}

#[test]
fn test_load_order_book_from_csv() {
    let data = "price,volume,side,timestamp,order_type\n\
                65290.1,0.5,ask,2024-05-01T10:00:00+00:00,limit\n\
                65280.0,1.0,bid,2024-05-01T10:00:00+00:00,limit\n";
    let files = vec![SnapshotFile {
        path: "data/offline/XXBTZUSD_order_book.csv".to_string(),
        data: data.as_bytes().to_vec(),
    }];
    let order_books = load_order_books(&files);
    assert!(order_books.contains("XXBTZUSD"));
    assert_eq!(order_books.get("XXBTZUSD").unwrap().len(), 2);
}

#[test]
fn file_names_follow_the_pattern() {
    assert_eq!(snapshot_file("snapshots", "XETHZUSD", None), "snapshots/XETHZUSD_order_book.csv");
    assert_eq!(
        snapshot_file("snapshots", "XETHZUSD", Some("20240501120000123456")),
        "snapshots/XETHZUSD_order_book_20240501120000123456.csv"
    );
    let stamped = snapshot_path("snapshots", "XETHZUSD", true);
    assert!(stamped.starts_with("snapshots/XETHZUSD_order_book_") && stamped.ends_with(".csv"));
    let stamp = &stamped["snapshots/XETHZUSD_order_book_".len()..stamped.len() - ".csv".len()];
    assert_eq!(stamp.len(), 20);
    assert!(stamp.chars().all(|c| c.is_ascii_digit()));
}

#[test]
fn symbol_is_the_file_name_up_to_the_first_underscore() {
    assert_eq!(symbol_of_path("data/offline/XXBTZUSD_order_book.csv"), "XXBTZUSD");
    assert_eq!(symbol_of_path("XETHZUSD_order_book_20240501120000123456.csv"), "XETHZUSD");
    assert_eq!(symbol_of_path("my_data/off_line/SUIUSD_order_book.csv"), "SUIUSD");
    assert_eq!(symbol_of_path("data/plain.csv"), "plain.csv");
    assert_eq!(symbol_of_path("data/"), "");
    assert_eq!(symbol_of_path("données/ÉTÉ_order_book.csv"), "ÉTÉ");
}

#[test]
fn layout_by_side_puts_asks_first_and_prices_descending() {
    let book = vec![
        order(1, Side::Bid, "99", "1"),
        order(2, Side::Ask, "101", "1"),
        order(3, Side::Bid, "100", "1"),
        order(4, Side::Ask, "102", "1"),
    ];
    let ids: Vec<u128> = snapshot_orders(&book, true).iter().map(|o| o.id).collect();
    assert_eq!(ids, vec![4, 2, 3, 1]);
    let ids: Vec<u128> = snapshot_orders(&book, false).iter().map(|o| o.id).collect();
    assert_eq!(ids, vec![1, 2, 3, 4]);
}

#[test]
fn a_row_holds_price_volume_side_timestamp_and_type() {
    assert_eq!(snapshot_header(), strings(&["price", "volume", "side", "timestamp", "order_type"]));
    assert_eq!(
        order_fields(&order(1, Side::Ask, "65290.1", "0.5")),
        strings(&["65290.10000000", "0.50000000", "ask", "2024-05-01T10:00:00.123456+00:00", "limit"])
    );
    let mut market = order(1, Side::Bid, "1", "2");
    market.order_type = OrderType::Market;
    assert_eq!(order_fields(&market)[2], "bid");
    assert_eq!(order_fields(&market)[4], "market");
}

#[test]
fn a_row_is_read_back_as_the_order_it_was_written_for() {
    let written = order(1, Side::Bid, "65280", "1.25");
    let read = order_from_fields(&order_fields(&written), 9).unwrap();
    assert_eq!(read.id, 9);
    assert_eq!(kept(&vec![read]), kept(&vec![written]));
}

#[test]
fn a_row_that_stands_for_no_order_is_refused() {
    assert!(order_from_fields(&strings(&["1", "2", "ask", "t", "limit"]), 1).is_some());
    assert!(order_from_fields(&strings(&["1", "2", "ask", "t"]), 1).is_none());
    assert!(order_from_fields(&strings(&["1", "2", "ask", "t", "limit", "x"]), 1).is_none());
    assert!(order_from_fields(&strings(&["x", "2", "ask", "t", "limit"]), 1).is_none());
    assert!(order_from_fields(&strings(&["1", "x", "ask", "t", "limit"]), 1).is_none());
    assert!(order_from_fields(&strings(&["1", "2", "buy", "t", "limit"]), 1).is_none());
    assert!(order_from_fields(&strings(&["1", "2", "ask", "t", "stop"]), 1).is_none());
}

#[test]
fn snapshot_rows_start_with_the_header() {
    let book = vec![order(1, Side::Bid, "99", "1"), order(2, Side::Ask, "101", "1")];
    let rows = snapshot_rows(&book, true);
    assert_eq!(rows.len(), 3);
    assert_eq!(rows[0], snapshot_header());
    assert_eq!(rows[1][2], "ask");
    assert_eq!(rows[2][2], "bid");
    assert!(snapshot_rows(&Vec::new(), true).is_empty());
}

#[test]
fn a_snapshot_is_written_as_csv() {
    let book = vec![order(1, Side::Bid, "99", "1"), order(2, Side::Ask, "101.5", "0.25")];
    let data = encode_snapshot(&book, true).unwrap();
    assert_eq!(
        String::from_utf8(data).unwrap(),
        "price,volume,side,timestamp,order_type\n\
         101.50000000,0.25000000,ask,2024-05-01T10:00:00.123456+00:00,limit\n\
         99.00000000,1.00000000,bid,2024-05-01T10:00:00.123456+00:00,limit\n"
    );
}

#[test]
fn fields_with_separators_are_quoted() {
    let rows = vec![strings(&["a,b", "say \"hi\"", "plain"])];
    assert_eq!(String::from_utf8(encode_rows(&rows).unwrap()).unwrap(), "\"a,b\",\"say \"\"hi\"\"\",plain\n");
}

#[test]
fn a_snapshot_is_read_without_its_header_and_its_bad_rows() {
    let data = "price,volume,side,timestamp,order_type\n\
                101.5,0.25,ask,\"2024-05-01, 10:00\",limit\n\
                oops,0.25,ask,t,limit\n\
                1,2,ask\n\
                99,1,bid,t2,limit\n";
    let orders = decode_snapshot(data.as_bytes());
    assert_eq!(
        kept(&orders),
        vec![
            (dec("101.5"), dec("0.25"), Side::Ask, "2024-05-01, 10:00".to_string(), OrderType::Limit),
            (dec("99"), dec("1"), Side::Bid, "t2".to_string(), OrderType::Limit),
        ]
    );
    assert_ne!(orders[0].id, orders[1].id);
    assert!(decode_snapshot(b"").is_empty());
    assert!(decode_snapshot(b"price,volume,side,timestamp,order_type\n").is_empty());
}

#[test]
fn rows_that_were_not_read_are_passed_over() {
    let rows = vec![None, Some(strings(&["1", "2", "bid", "t", "limit"])), Some(strings(&["1"])), None];
    let orders = orders_from_rows(&rows);
    assert_eq!(kept(&orders), vec![(dec("1"), dec("2"), Side::Bid, "t".to_string(), OrderType::Limit)]);
}

#[test]
fn a_book_survives_a_round_trip_but_for_its_ids() {
    let mut odd = order(5, Side::Ask, "101", "3");
    odd.timestamp = "with, comma and \"quotes\"\nand a line break".to_string();
    let book = vec![
        order(1, Side::Bid, "99", "1"),
        order(2, Side::Ask, "101", "1"),
        order(3, Side::Bid, "100", "0.00000001"),
        order(4, Side::Ask, "102", "184467440737.09551615"),
        odd,
    ];
    for sort_by_side in [false, true] {
        let data = encode_snapshot(&book, sort_by_side).unwrap();
        let files = vec![SnapshotFile { path: "data/offline/XXBTZUSD_order_book.csv".to_string(), data }];
        let store = load_order_books(&files);
        let mut loaded = kept(store.get("XXBTZUSD").unwrap());
        let mut persisted = kept(&book);
        loaded.sort_by_key(|r| (r.0, r.1, r.3.clone()));
        persisted.sort_by_key(|r| (r.0, r.1, r.3.clone()));
        assert_eq!(loaded, persisted);
    }
}

#[test]
fn loading_gathers_files_by_symbol_and_sorts_each_book_for_matching() {
    let first = "price,volume,side,timestamp,order_type\n100,1,bid,a,limit\n103,1,ask,b,limit\n";
    let second = "price,volume,side,timestamp,order_type\n102,1,ask,c,limit\n101,1,bid,d,limit\n";
    let other = "price,volume,side,timestamp,order_type\n5,1,ask,e,limit\n";
    let empty = "price,volume,side,timestamp,order_type\n";
    let file = |path: &str, data: &str| SnapshotFile { path: path.to_string(), data: data.as_bytes().to_vec() };
    let files = vec![
        file("data/offline/XXBTZUSD_order_book.csv", first),
        file("data/offline/XETHZUSD_order_book.csv", other),
        file("data/offline/XXBTZUSD_order_book_20240501120000000000.csv", second),
        file("data/offline/SUIUSD_order_book.csv", empty),
    ];
    let gathered = gather_books(&files);
    let stamps: Vec<String> = gathered.get("XXBTZUSD").unwrap().iter().map(|o| o.timestamp.clone()).collect();
    assert_eq!(stamps, vec!["a", "b", "c", "d"]);
    let store = load_order_books(&files);
    let stamps: Vec<String> = store.get("XXBTZUSD").unwrap().iter().map(|o| o.timestamp.clone()).collect();
    assert_eq!(stamps, vec!["c", "b", "d", "a"]);
    assert_eq!(store.get("XETHZUSD").unwrap().len(), 1);
    assert!(!store.contains("SUIUSD"));
}

#[test]
fn rank_books_sorts_every_book() {
    let mut store: BookStore = Registry::new();
    store.replace("A", vec![order(1, Side::Bid, "1", "1"), order(2, Side::Ask, "2", "1")]);
    store.replace("B", vec![order(3, Side::Ask, "1", "1"), order(4, Side::Ask, "2", "1")]);
    rank_books(&mut store, Ranking::SidePriceDescending);
    let ids = |book: &Vec<Order>| book.iter().map(|o| o.id).collect::<Vec<u128>>();
    assert_eq!(ids(store.get("A").unwrap()), vec![2, 1]);
    assert_eq!(ids(store.get("B").unwrap()), vec![4, 3]);
}

#[test]
fn lines_are_joined_in_order() {
    assert_eq!(join_lines(&vec![b"ab\n".to_vec(), Vec::new(), b"c\n".to_vec()]), b"ab\nc\n".to_vec());
    assert!(join_lines(&Vec::new()).is_empty());
}

#[test]
fn a_checked_snapshot_reads_back_as_written() {
    let mut odd = order(5, Side::Ask, "101", "3");
    odd.timestamp = "a, \"b\"\r\nc".to_string();
    let book = vec![order(1, Side::Bid, "99", "1"), odd, order(2, Side::Ask, "101.5", "0.25")];
    for sort_by_side in [false, true] {
        let data = encode_snapshot_checked(&book, sort_by_side).unwrap();
        assert_eq!(Some(data.clone()), encode_snapshot(&book, sort_by_side));
        assert!(reads_back(&snapshot_rows(&book, sort_by_side), &data));
        assert_eq!(kept(&decode_snapshot(&data)), kept(&snapshot_orders(&book, sort_by_side)));
    }
    assert_eq!(encode_snapshot_checked(&Vec::new(), true), Some(Vec::new()));
}

#[test]
fn data_that_differs_from_the_rows_does_not_read_back() {
    let rows = snapshot_rows(&vec![order(1, Side::Bid, "99", "1")], false);
    assert!(reads_back(&rows, b"price,volume,side,timestamp,order_type\n99.00000000,1.00000000,bid,2024-05-01T10:00:00.123456+00:00,limit\n"));
    assert!(!reads_back(&rows, b"price,volume,side,timestamp,order_type\n99.0,1.00000000,bid,2024-05-01T10:00:00.123456+00:00,limit\n"));
    assert!(!reads_back(&rows, b"price,volume,side,timestamp,order_type\n"));
    assert!(!reads_back(&rows, b""));
    assert!(reads_back(&Vec::new(), b""));
    assert!(rows_read_back(&rows, &vec![Some(rows[1].clone())]));
    assert!(!rows_read_back(&rows, &vec![None]));
    assert!(!rows_read_back(&rows, &vec![Some(rows[1].clone()), Some(rows[1].clone())]));
    assert!(same_fields(&rows[1], &rows[1].clone()));
    assert!(!same_fields(&rows[0], &rows[1]));
}
