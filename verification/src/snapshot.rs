//! Snapshots of a book: the layout and the records in which a book is
//! persisted, and the reading of such records.
use vstd::prelude::*;
use vstd::string::*;
use crate::csvtext::{csv_line, csv_line_of, csv_rows, csv_rows_of, row_texts};
use crate::decimal::{decimal_text, lemma_text_round_trip, parsed_literal, Decimal};
use crate::ident::fresh_id;
use crate::order::{copy_orders, order_type_named, side_named, Order, OrderType, Side};
use crate::ranking::{rank_orders, ranked, Ranking};
use crate::stamp::file_stamp_now;
use crate::text::{end_of_last, first_index_of, lemma_end_of_last_is, lemma_first_index_is, str_eq, texts};

verus! {

/// What a snapshot keeps of an order: everything but its id.
pub struct OrderRecord {
    pub price: Decimal,
    pub volume: Decimal,
    pub side: Side,
    pub timestamp: Seq<char>,
    pub order_type: OrderType,
}

/// What a snapshot keeps of `order`.
pub open spec fn record_of(order: Order) -> OrderRecord {
    OrderRecord {
        price: order.price,
        volume: order.volume,
        side: order.side,
        timestamp: order.timestamp@,
        order_type: order.order_type,
    }
}

/// What a snapshot keeps of each of the orders, in order.
pub open spec fn records_of(orders: Seq<Order>) -> Seq<OrderRecord> {
    Seq::new(orders.len(), |i: int| record_of(orders[i]))
}

/// The names of the fields of a snapshot row, in order.
pub open spec fn header_fields() -> Seq<Seq<char>> {
    seq!["price"@, "volume"@, "side"@, "timestamp"@, "order_type"@]
}

/// The fields of the snapshot row of `order`: price, volume, side,
/// timestamp and order type.
pub open spec fn record_fields(order: Order) -> Seq<Seq<char>> {
    seq![
        decimal_text(order.price@),
        decimal_text(order.volume@),
        order.side.spec_name(),
        order.timestamp@,
        order.order_type.spec_name(),
    ]
}

/// The record that a row of fields stands for: five fields, of which the
/// first two are decimal literals that fit, the third names a side and the
/// fifth an order type. Any other row stands for nothing.
pub open spec fn row_record(fields: Seq<Seq<char>>) -> Option<OrderRecord> {
    if fields.len() == 5 && parsed_literal(fields[0]) is Some && parsed_literal(fields[1]) is Some
        && side_named(fields[2]) is Some && order_type_named(fields[4]) is Some {
        Some(
            OrderRecord {
                price: parsed_literal(fields[0])->0,
                volume: parsed_literal(fields[1])->0,
                side: side_named(fields[2])->0,
                timestamp: fields[3],
                order_type: order_type_named(fields[4])->0,
            },
        )
    } else {
        None
    }
}

/// The records that rows stand for, in order. A row that could not be
/// read, or that stands for nothing, is passed over.
pub open spec fn rows_records(rows: Seq<Option<Seq<Seq<char>>>>) -> Seq<OrderRecord>
    decreases rows.len(),
{
    if rows.len() == 0 {
        Seq::empty()
    } else {
        let earlier = rows_records(rows.drop_last());
        match rows.last() {
            Some(fields) => match row_record(fields) {
                Some(record) => earlier.push(record),
                None => earlier,
            },
            None => earlier,
        }
    }
}

/// The name of the snapshot file of an instrument: in the directory
/// `dir`, the symbol, `_order_book`, then `_` and the stamp where there is
/// one, and `.csv`.
pub open spec fn snapshot_file_name(dir: Seq<char>, symbol: Seq<char>, stamp: Option<Seq<char>>) -> Seq<char> {
    match stamp {
        Some(digits) => dir + "/"@ + symbol + "_order_book"@ + "_"@ + digits + ".csv"@,
        None => dir + "/"@ + symbol + "_order_book"@ + ".csv"@,
    }
}

/// The name of the file that `path` ends in: what stands behind its last `/`.
pub open spec fn file_name_of(path: Seq<char>) -> Seq<char> {
    path.subrange(end_of_last(path, '/'), path.len() as int)
}

/// The symbol that a snapshot's path names: its file name up to the first `_`.
pub open spec fn symbol_of(path: Seq<char>) -> Seq<char> {
    file_name_of(path).subrange(0, first_index_of(file_name_of(path), '_'))
}

/// The layout in which a book is persisted: as it stands, or with asks in
/// front of bids and each side by descending price.
pub open spec fn snapshot_layout(book: Seq<Order>, sort_by_side: bool) -> Seq<Order> {
    if sort_by_side {
        ranked(book, Ranking::SidePriceDescending)
    } else {
        book
    }
}

/// The rows of the snapshot of a book: none for a book without orders,
/// else the header and one row for each order of the layout.
pub open spec fn snapshot_rows_of(book: Seq<Order>, sort_by_side: bool) -> Seq<Seq<Seq<char>>> {
    let orders = snapshot_layout(book, sort_by_side);
    if orders.len() == 0 {
        Seq::empty()
    } else {
        seq![header_fields()] + Seq::new(orders.len(), |i: int| record_fields(orders[i]))
    }
}

/// The rows one after the other as the `csv` crate writes them; `None`
/// where it reports an error for one of them.
pub open spec fn joined_lines(rows: Seq<Seq<Seq<char>>>) -> Option<Seq<u8>>
    decreases rows.len(),
{
    if rows.len() == 0 {
        Some(Seq::empty())
    } else {
        match (joined_lines(rows.drop_last()), csv_line_of(rows.last())) {
            (Some(earlier), Some(line)) => Some(earlier + line),
            _ => None,
        }
    }
}

/// What a reader hands back for rows if it returns the rows that were
/// written: every row behind the header, as read.
pub open spec fn read_back(rows: Seq<Seq<Seq<char>>>) -> Seq<Option<Seq<Seq<char>>>> {
    if rows.len() == 0 {
        Seq::empty()
    } else {
        Seq::new((rows.len() - 1) as nat, |i: int| Some(rows[i + 1]))
    }
}

/// The fields of each row, as characters.
pub open spec fn rows_texts(rows: Seq<Vec<String>>) -> Seq<Seq<Seq<char>>> {
    Seq::new(rows.len(), |i: int| texts(rows[i]@))
}

/// The name of the snapshot file of an instrument.
pub fn snapshot_file(dir: &str, symbol: &str, stamp: Option<&str>) -> (name: String)
    ensures
        name@ == snapshot_file_name(
            dir@,
            symbol@,
            match stamp {
                Some(digits) => Some(digits@),
                None => None,
            },
        ),
{
    let mut name = dir.to_owned();
    name.append("/");
    name.append(symbol);
    name.append("_order_book");
    match stamp {
        Some(digits) => {
            name.append("_");
            name.append(digits);
        },
        None => {},
    }
    name.append(".csv");
    name
}

/// The name of the snapshot file of an instrument as of now: with the
/// current time as the stamp where `include_timestamp` asks for one.
pub fn snapshot_path(dir: &str, symbol: &str, include_timestamp: bool) -> (name: String)
    ensures
        !include_timestamp ==> name@ == snapshot_file_name(dir@, symbol@, None),
        include_timestamp ==> exists|stamp: Seq<char>| name@ == snapshot_file_name(dir@, symbol@, Some(stamp)),
{
    if include_timestamp {
        let stamp = file_stamp_now();
        let name = snapshot_file(dir, symbol, Some(stamp.as_str()));
        assert(name@ == snapshot_file_name(dir@, symbol@, Some(stamp@)));
        name
    } else {
        snapshot_file(dir, symbol, None)
    }
}

/// The symbol that a snapshot's path names.
pub fn symbol_of_path(path: &str) -> (symbol: String)
    ensures
        symbol@ == symbol_of(path@),
{
    let n = path.unicode_len();
    let mut start: usize = n;
    while start > 0 && path.get_char(start - 1) != '/'
        invariant
            n == path@.len(),
            0 <= start <= n,
            forall|i: int| start <= i < n ==> path@[i] != '/',
        decreases start,
    {
        start -= 1;
    }
    proof {
        lemma_end_of_last_is(path@, '/', start as int);
    }
    let ghost name = file_name_of(path@);
    let mut end: usize = start;
    while end < n && path.get_char(end) != '_'
        invariant
            n == path@.len(),
            start <= end <= n,
            name == path@.subrange(start as int, n as int),
            forall|i: int| 0 <= i < end - start ==> name[i] != '_',
        decreases n - end,
    {
        end += 1;
    }
    proof {
        if end < n {
            assert(name[end - start] == path@[end as int]);
        }
        lemma_first_index_is(name, '_', end - start);
        assert(name.subrange(0, end - start) =~= path@.subrange(start as int, end as int));
    }
    path.substring_char(start, end).to_owned()
}

/// The orders in the layout in which a book is persisted.
pub fn snapshot_orders(book: &Vec<Order>, sort_by_side: bool) -> (orders: Vec<Order>)
    ensures
        orders@ == snapshot_layout(book@, sort_by_side),
{
    if sort_by_side {
        rank_orders(book, Ranking::SidePriceDescending)
    } else {
        copy_orders(book)
    }
}

/// The header of a snapshot.
pub fn snapshot_header() -> (header: Vec<String>)
    ensures
        texts(header@) == header_fields(),
{
    let mut header: Vec<String> = Vec::new();
    header.push("price".to_owned());
    header.push("volume".to_owned());
    header.push("side".to_owned());
    header.push("timestamp".to_owned());
    header.push("order_type".to_owned());
    assert(texts(header@) =~= header_fields());
    header
}

/// The fields of the snapshot row of `order`.
pub fn order_fields(order: &Order) -> (fields: Vec<String>)
    ensures
        texts(fields@) == record_fields(*order),
{
    let mut fields: Vec<String> = Vec::new();
    fields.push(order.price.to_text());
    fields.push(order.volume.to_text());
    fields.push(order.side.name().to_owned());
    fields.push(order.timestamp.clone());
    fields.push(order.order_type.name().to_owned());
    assert(texts(fields@) =~= record_fields(*order));
    fields
}

/// The order that a row of fields stands for, under `id`.
pub fn order_from_fields(fields: &Vec<String>, id: u128) -> (order: Option<Order>)
    ensures
        match order {
            Some(o) => o.id == id && row_record(texts(fields@)) == Some(record_of(o)),
            None => row_record(texts(fields@)) is None,
        },
{
    if fields.len() != 5 {
        return None;
    }
    assert(texts(fields@)[0] == fields@[0]@ && texts(fields@)[1] == fields@[1]@ && texts(fields@)[2]
        == fields@[2]@ && texts(fields@)[3] == fields@[3]@ && texts(fields@)[4] == fields@[4]@);
    let price = match Decimal::parse(fields[0].as_str()) {
        Some(price) => price,
        None => {
            return None;
        },
    };
    let volume = match Decimal::parse(fields[1].as_str()) {
        Some(volume) => volume,
        None => {
            return None;
        },
    };
    let side = match Side::parse(fields[2].as_str()) {
        Some(side) => side,
        None => {
            return None;
        },
    };
    let order_type = match OrderType::parse(fields[4].as_str()) {
        Some(order_type) => order_type,
        None => {
            return None;
        },
    };
    Some(Order { id, price, volume, side, timestamp: fields[3].clone(), order_type })
}

/// The rows of the snapshot of a book.
pub fn snapshot_rows(book: &Vec<Order>, sort_by_side: bool) -> (rows: Vec<Vec<String>>)
    ensures
        rows_texts(rows@) == snapshot_rows_of(book@, sort_by_side),
{
    let orders = snapshot_orders(book, sort_by_side);
    let mut rows: Vec<Vec<String>> = Vec::new();
    if orders.len() == 0 {
        assert(rows_texts(rows@) =~= snapshot_rows_of(book@, sort_by_side));
        return rows;
    }
    rows.push(snapshot_header());
    let mut i: usize = 0;
    while i < orders.len()
        invariant
            0 <= i <= orders@.len(),
            rows@.len() == i + 1,
            texts(rows@[0]@) == header_fields(),
            forall|j: int| 0 <= j < i ==> texts(#[trigger] rows@[j + 1]@) == record_fields(orders@[j]),
        decreases orders@.len() - i,
    {
        rows.push(order_fields(&orders[i]));
        i += 1;
    }
    assert(rows_texts(rows@) =~= snapshot_rows_of(book@, sort_by_side)) by {
        let want = snapshot_rows_of(book@, sort_by_side);
        assert(want.len() == rows@.len());
        assert forall|k: int| 0 <= k < rows@.len() implies rows_texts(rows@)[k] == want[k] by {
            if k > 0 {
                assert(texts(rows@[(k - 1) + 1]@) == record_fields(orders@[k - 1]));
            }
        }
    }
    rows
}

/// The bytes of the lines, one line after the other.
pub open spec fn joined(lines: Seq<Vec<u8>>) -> Seq<u8>
    decreases lines.len(),
{
    if lines.len() == 0 {
        Seq::empty()
    } else {
        joined(lines.drop_last()) + lines.last()@
    }
}

/// Whether `lines` are the rows, one for one, as the `csv` crate writes them.
pub open spec fn lines_of_rows(lines: Seq<Vec<u8>>, rows: Seq<Seq<Seq<char>>>) -> bool {
    &&& lines.len() == rows.len()
    &&& forall|i: int| 0 <= i < rows.len() ==> csv_line_of(#[trigger] rows[i]) == Some(lines[i]@)
}

/// One line after the other, as one run of bytes.
pub fn join_lines(lines: &Vec<Vec<u8>>) -> (data: Vec<u8>)
    ensures
        data@ == joined(lines@),
{
    let mut data: Vec<u8> = Vec::new();
    let mut i: usize = 0;
    while i < lines.len()
        invariant
            0 <= i <= lines@.len(),
            data@ == joined(lines@.subrange(0, i as int)),
        decreases lines@.len() - i,
    {
        proof {
            assert(lines@.subrange(0, i + 1).drop_last() == lines@.subrange(0, i as int));
        }
        let line = &lines[i];
        let mut j: usize = 0;
        let ghost before = data@;
        while j < line.len()
            invariant
                0 <= j <= line@.len(),
                data@ == before + line@.subrange(0, j as int),
            decreases line@.len() - j,
        {
            data.push(line[j]);
            assert(data@ =~= before + line@.subrange(0, j + 1));
            j += 1;
        }
        assert(line@.subrange(0, j as int) == line@);
        i += 1;
    }
    assert(lines@.subrange(0, i as int) == lines@);
    data
}

/// Lines that are the rows as written join to the rows as written.
proof fn lemma_joined_lines(lines: Seq<Vec<u8>>, rows: Seq<Seq<Seq<char>>>)
    requires
        lines_of_rows(lines, rows),
    ensures
        joined_lines(rows) == Some(joined(lines)),
    decreases rows.len(),
{
    if rows.len() > 0 {
        assert forall|i: int| 0 <= i < rows.len() - 1 implies csv_line_of(#[trigger] rows.drop_last()[i]) == Some(
            lines.drop_last()[i]@,
        ) by {
            assert(rows.drop_last()[i] == rows[i]);
        }
        lemma_joined_lines(lines.drop_last(), rows.drop_last());
        assert(csv_line_of(rows[rows.len() - 1]) == Some(lines[rows.len() - 1]@));
    }
}

/// A row that cannot be written leaves the rows unwritten.
proof fn lemma_joined_lines_unwritten(rows: Seq<Seq<Seq<char>>>, k: int)
    requires
        0 <= k < rows.len(),
        csv_line_of(rows[k]) is None,
    ensures
        joined_lines(rows) is None,
    decreases rows.len(),
{
    if k < rows.len() - 1 {
        assert(rows.drop_last()[k] == rows[k]);
        lemma_joined_lines_unwritten(rows.drop_last(), k);
    }
}

/// The rows as CSV bytes, one record after the other; `None` where the
/// `csv` crate reports an error for a row.
pub fn encode_rows(rows: &Vec<Vec<String>>) -> (data: Option<Vec<u8>>)
    ensures
        match data {
            Some(bytes) => joined_lines(rows_texts(rows@)) == Some(bytes@),
            None => joined_lines(rows_texts(rows@)) is None,
        },
{
    let mut lines: Vec<Vec<u8>> = Vec::new();
    let mut i: usize = 0;
    while i < rows.len()
        invariant
            0 <= i <= rows@.len(),
            lines_of_rows(lines@, rows_texts(rows@).subrange(0, i as int)),
        decreases rows@.len() - i,
    {
        let ghost upto = rows_texts(rows@).subrange(0, i + 1);
        let ghost before = rows_texts(rows@).subrange(0, i as int);
        match csv_line(&rows[i]) {
            Some(line) => {
                lines.push(line);
                proof {
                    assert forall|k: int| 0 <= k < upto.len() implies csv_line_of(#[trigger] upto[k]) == Some(
                        lines@[k]@,
                    ) by {
                        if k < i {
                            assert(upto[k] == before[k]);
                        }
                    }
                }
            },
            None => {
                proof {
                    assert(rows_texts(rows@)[i as int] == texts(rows@[i as int]@));
                    lemma_joined_lines_unwritten(rows_texts(rows@), i as int);
                }
                return None;
            },
        }
        i += 1;
    }
    proof {
        assert(rows_texts(rows@).subrange(0, i as int) == rows_texts(rows@));
        lemma_joined_lines(lines@, rows_texts(rows@));
    }
    Some(join_lines(&lines))
}

/// The row written for an order stands for what a snapshot keeps of it.
pub proof fn lemma_row_round_trip(order: Order)
    ensures
        row_record(record_fields(order)) == Some(record_of(order)),
{
    lemma_text_round_trip(order.price);
    lemma_text_round_trip(order.volume);
    reveal_strlit("ask");
    reveal_strlit("bid");
    reveal_strlit("limit");
    reveal_strlit("market");
    assert("bid"@ != "ask"@) by {
        assert("bid"@[0] != "ask"@[0]);
    }
    assert("market"@ != "limit"@) by {
        assert("market"@[0] != "limit"@[0]);
    }
}

/// The rows written for orders stand for what a snapshot keeps of them, in order.
proof fn lemma_rows_round_trip(orders: Seq<Order>)
    ensures
        rows_records(Seq::new(orders.len(), |i: int| Some(record_fields(orders[i])))) == records_of(orders),
    decreases orders.len(),
{
    let rows = Seq::new(orders.len(), |i: int| Some(record_fields(orders[i])));
    if orders.len() == 0 {
        assert(records_of(orders) =~= Seq::<OrderRecord>::empty());
    } else {
        let earlier = orders.drop_last();
        lemma_rows_round_trip(earlier);
        lemma_row_round_trip(orders.last());
        assert(rows.drop_last() =~= Seq::new(earlier.len(), |i: int| Some(record_fields(earlier[i]))));
        assert(rows.last() == Some(record_fields(orders.last())));
        assert(records_of(orders) =~= records_of(earlier).push(record_of(orders.last())));
    }
}

/// The rows written for a book, read back as written, stand for what a
/// snapshot keeps of the orders of the book in its layout.
pub proof fn lemma_snapshot_rows_read_back(book: Seq<Order>, sort_by_side: bool)
    ensures
        rows_records(read_back(snapshot_rows_of(book, sort_by_side))) == records_of(
            snapshot_layout(book, sort_by_side),
        ),
{
    let layout = snapshot_layout(book, sort_by_side);
    let rows = snapshot_rows_of(book, sort_by_side);
    lemma_rows_round_trip(layout);
    if layout.len() == 0 {
        assert(records_of(layout) =~= Seq::<OrderRecord>::empty());
        assert(rows_records(read_back(rows)) =~= Seq::<OrderRecord>::empty());
    } else {
        assert(read_back(rows) =~= Seq::new(layout.len(), |i: int| Some(record_fields(layout[i]))));
    }
}

/// Whether two rows hold the same fields.
pub fn same_fields(a: &Vec<String>, b: &Vec<String>) -> (same: bool)
    ensures
        same == (texts(a@) == texts(b@)),
{
    if a.len() != b.len() {
        assert(texts(a@).len() != texts(b@).len());
        return false;
    }
    let mut i: usize = 0;
    while i < a.len()
        invariant
            a@.len() == b@.len(),
            0 <= i <= a@.len(),
            forall|j: int| 0 <= j < i ==> a@[j]@ == b@[j]@,
        decreases a@.len() - i,
    {
        if !str_eq(a[i].as_str(), b[i].as_str()) {
            assert(texts(a@)[i as int] != texts(b@)[i as int]);
            return false;
        }
        i += 1;
    }
    assert(texts(a@) =~= texts(b@));
    true
}

/// Whether rows read from CSV data are the rows that were written, but
/// for the header: every row read, and as written.
pub fn rows_read_back(written: &Vec<Vec<String>>, read: &Vec<Option<Vec<String>>>) -> (yes: bool)
    ensures
        yes == (row_texts(read@) == read_back(rows_texts(written@))),
{
    let ghost want = read_back(rows_texts(written@));
    let ghost got = row_texts(read@);
    if written.len() == 0 {
        assert(want.len() == 0 && got.len() == read@.len());
        assert(read@.len() == 0 ==> got =~= want);
        return read.len() == 0;
    }
    if read.len() != written.len() - 1 {
        assert(want.len() == written@.len() - 1 && got.len() == read@.len());
        return false;
    }
    let mut i: usize = 0;
    while i < read.len()
        invariant
            written@.len() == read@.len() + 1,
            want == read_back(rows_texts(written@)),
            got == row_texts(read@),
            0 <= i <= read@.len(),
            forall|j: int| 0 <= j < i ==> got[j] == want[j],
        decreases read@.len() - i,
    {
        let same = match &read[i] {
            Some(fields) => same_fields(fields, &written[i + 1]),
            None => false,
        };
        if !same {
            assert(got[i as int] != want[i as int]);
            return false;
        }
        i += 1;
    }
    assert(got =~= want);
    true
}

/// Whether CSV data reads back as the rows that were written.
pub fn reads_back(written: &Vec<Vec<String>>, data: &[u8]) -> (yes: bool)
    ensures
        yes == (csv_rows_of(data@) == read_back(rows_texts(written@))),
{
    let read = csv_rows(data);
    rows_read_back(written, &read)
}

/// The snapshot of a book as CSV bytes that read back as they were
/// written: like [`encode_snapshot`], but `None` also where reading the
/// bytes would not give the rows of the book. Reading what this returns
/// gives, record for record, what a snapshot keeps of the orders of the
/// book in its layout.
pub fn encode_snapshot_checked(book: &Vec<Order>, sort_by_side: bool) -> (data: Option<Vec<u8>>)
    ensures
        match data {
            Some(bytes) => {
                &&& joined_lines(snapshot_rows_of(book@, sort_by_side)) == Some(bytes@)
                &&& csv_rows_of(bytes@) == read_back(snapshot_rows_of(book@, sort_by_side))
                &&& rows_records(csv_rows_of(bytes@)) == records_of(snapshot_layout(book@, sort_by_side))
            },
            None => joined_lines(snapshot_rows_of(book@, sort_by_side)) matches Some(bytes) ==> csv_rows_of(
                bytes,
            ) != read_back(snapshot_rows_of(book@, sort_by_side)),
        },
{
    let rows = snapshot_rows(book, sort_by_side);
    match encode_rows(&rows) {
        Some(bytes) => {
            if reads_back(&rows, bytes.as_slice()) {
                proof {
                    lemma_snapshot_rows_read_back(book@, sort_by_side);
                }
                Some(bytes)
            } else {
                None
            }
        },
        None => None,
    }
}

/// The snapshot of a book as CSV bytes: nothing for a book without orders,
/// else the header and one record for each order of the layout.
pub fn encode_snapshot(book: &Vec<Order>, sort_by_side: bool) -> (data: Option<Vec<u8>>)
    ensures
        match data {
            Some(bytes) => joined_lines(snapshot_rows_of(book@, sort_by_side)) == Some(bytes@),
            None => joined_lines(snapshot_rows_of(book@, sort_by_side)) is None,
        },
{
    let rows = snapshot_rows(book, sort_by_side);
    encode_rows(&rows)
}

/// The orders that rows stand for, in order, each under a fresh id. A row
/// that could not be read, or that stands for nothing, is passed over.
pub fn orders_from_rows(rows: &Vec<Option<Vec<String>>>) -> (orders: Vec<Order>)
    ensures
        records_of(orders@) == rows_records(row_texts(rows@)),
{
    let mut orders: Vec<Order> = Vec::new();
    let mut i: usize = 0;
    assert(records_of(orders@) =~= rows_records(row_texts(rows@).subrange(0, 0)));
    while i < rows.len()
        invariant
            0 <= i <= rows@.len(),
            records_of(orders@) == rows_records(row_texts(rows@).subrange(0, i as int)),
        decreases rows@.len() - i,
    {
        proof {
            let upto = row_texts(rows@).subrange(0, i + 1);
            assert(upto.drop_last() == row_texts(rows@).subrange(0, i as int));
        }
        let ghost before = orders@;
        match &rows[i] {
            Some(fields) => {
                match order_from_fields(fields, fresh_id()) {
                    Some(order) => {
                        orders.push(order);
                        assert(records_of(orders@) =~= records_of(before).push(record_of(order)));
                    },
                    None => {},
                }
            },
            None => {},
        }
        i += 1;
    }
    assert(row_texts(rows@).subrange(0, i as int) == row_texts(rows@));
    orders
}

/// The orders of a snapshot, in file order, each under a fresh id. The
/// first record is the header; a record that the `csv` crate cannot read,
/// or that stands for no order, is passed over.
pub fn decode_snapshot(data: &[u8]) -> (orders: Vec<Order>)
    ensures
        records_of(orders@) == rows_records(csv_rows_of(data@)),
{
    let rows = csv_rows(data);
    orders_from_rows(&rows)
}

} // verus!
