//! The exchange's state and the operations on it: queries, and the
//! processing of one submitted order.
use vstd::prelude::*;
use crate::decimal::Decimal;
use crate::ident::fresh_id;
use crate::matching::{ack_record, match_order, matched_book, matched_trades};
use crate::order::{copy_orders, Direction, Order, OrderRequest, Trade, TradeSide, TradeStatus};
use crate::stamp::timestamp_now;
use crate::store::{BookStore, Ledger, Registry};

verus! {

/// Why a request to the service was not served.
#[derive(Clone, Copy, Debug, PartialEq, Eq, Structural)]
pub enum ServiceError {
    /// No book for the symbol, or no ledger for the trader.
    NotFound,
    /// The order intake no longer takes submissions.
    Internal,
}

/// The reply to a submission that was taken into the intake.
#[derive(Debug, PartialEq, Eq)]
pub struct OrderResponse {
    pub status: String,
    pub message: String,
}

/// The books and the ledger of the exchange.
pub struct OrderBookService {
    pub order_books: BookStore,
    pub trade_books: Ledger,
}

/// What processing one submission used and did.
pub struct Processed {
    /// The id of the acknowledgement, and of the order that rests, if one does.
    pub ack_id: u128,
    /// The timestamp of the records and of the resting order.
    pub timestamp: String,
    /// Whether the instrument had a book, which was then matched and rewritten.
    pub matched: bool,
}

/// The price and volume of each order, in book order.
pub open spec fn price_levels(book: Seq<Order>) -> Seq<(Decimal, Decimal)> {
    Seq::new(book.len(), |i: int| (book[i].price, book[i].volume))
}

/// The records that one submission adds to its trader's ledger: the
/// acknowledgement, then the fills in the order of consumption. Without a
/// book for the instrument the acknowledgement stands alone.
pub open spec fn submission_records(
    books: Map<Seq<char>, Seq<Order>>,
    request: OrderRequest,
    ack_id: u128,
    now: String,
) -> Seq<Trade> {
    if books.contains_key(request.pair@) {
        seq![ack_record(request, ack_id, now)] + matched_trades(books[request.pair@], request, now)
    } else {
        seq![ack_record(request, ack_id, now)]
    }
}

/// The books after one submission: the instrument's book matched, where it
/// has one; every other book as it was.
pub open spec fn books_after(
    books: Map<Seq<char>, Seq<Order>>,
    request: OrderRequest,
    ack_id: u128,
    now: String,
) -> Map<Seq<char>, Seq<Order>> {
    if books.contains_key(request.pair@) {
        books.insert(request.pair@, matched_book(books[request.pair@], request, ack_id, now))
    } else {
        books
    }
}

/// The ledger after one submission: its records appended, in order, to the
/// trader's list; every other list as it was.
pub open spec fn ledger_after(
    ledger: Map<Seq<char>, Seq<Trade>>,
    books: Map<Seq<char>, Seq<Order>>,
    request: OrderRequest,
    ack_id: u128,
    now: String,
) -> Map<Seq<char>, Seq<Trade>> {
    let had = if ledger.contains_key(request.trader@) {
        ledger[request.trader@]
    } else {
        Seq::empty()
    };
    ledger.insert(request.trader@, had + submission_records(books, request, ack_id, now))
}

/// What one refresh cycle brought for one instrument.
pub struct Fetched {
    pub symbol: String,
    /// The book made from the depth that was fetched; `None` where the
    /// fetch failed.
    pub book: Option<Vec<Order>>,
}

/// The book that a refresh puts in place: the one fetched, or an empty
/// one where the fetch failed.
pub open spec fn fetched_book(fetched: Fetched) -> Seq<Order> {
    match fetched.book {
        Some(book) => book@,
        None => Seq::empty(),
    }
}

/// The books after a refresh cycle: each instrument fetched has its book
/// replaced whole, in the order fetched; every other book is as it was.
pub open spec fn refreshed(books: Map<Seq<char>, Seq<Order>>, fetched: Seq<Fetched>) -> Map<
    Seq<char>,
    Seq<Order>,
>
    decreases fetched.len(),
{
    if fetched.len() == 0 {
        books
    } else {
        refreshed(books, fetched.drop_last()).insert(fetched.last().symbol@, fetched_book(fetched.last()))
    }
}

/// A submission as the matcher takes it from the intake, with the id and
/// the timestamp under which it is acknowledged.
pub struct Submission {
    pub request: OrderRequest,
    pub ack_id: u128,
    pub now: String,
}

/// The books after the submissions were processed one after the other.
pub open spec fn books_after_all(books: Map<Seq<char>, Seq<Order>>, submissions: Seq<Submission>) -> Map<
    Seq<char>,
    Seq<Order>,
>
    decreases submissions.len(),
{
    if submissions.len() == 0 {
        books
    } else {
        let last = submissions.last();
        books_after(books_after_all(books, submissions.drop_last()), last.request, last.ack_id, last.now)
    }
}

/// The ledger after the submissions were processed one after the other.
pub open spec fn ledger_after_all(
    ledger: Map<Seq<char>, Seq<Trade>>,
    books: Map<Seq<char>, Seq<Order>>,
    submissions: Seq<Submission>,
) -> Map<Seq<char>, Seq<Trade>>
    decreases submissions.len(),
{
    if submissions.len() == 0 {
        ledger
    } else {
        let last = submissions.last();
        ledger_after(
            ledger_after_all(ledger, books, submissions.drop_last()),
            books_after_all(books, submissions.drop_last()),
            last.request,
            last.ack_id,
            last.now,
        )
    }
}

/// The reply to a submission: the acknowledgement where the intake took
/// it, an internal error where the intake is closed.
pub fn intake_reply(accepted: bool) -> (reply: Result<OrderResponse, ServiceError>)
    ensures
        accepted ==> reply is Ok && reply->Ok_0.status@ == "new"@ && reply->Ok_0.message@
            == "order registered and is being processed"@,
        !accepted ==> reply == Err::<OrderResponse, ServiceError>(ServiceError::Internal),
{
    if accepted {
        Ok(
            OrderResponse {
                status: "new".to_owned(),
                message: "order registered and is being processed".to_owned(),
            },
        )
    } else {
        Err(ServiceError::Internal)
    }
}

impl OrderBookService {
    /// A service with the given books and an empty ledger.
    pub fn new(order_books: BookStore) -> (service: OrderBookService)
        ensures
            service.order_books == order_books,
            service.trade_books@ == Map::<Seq<char>, Seq<Trade>>::empty(),
    {
        OrderBookService { order_books, trade_books: Registry::new() }
    }

    /// The price and volume of each order in the book of `pair`, in book order.
    pub fn get_order_book(&self, pair: &str) -> (reply: Result<Vec<(Decimal, Decimal)>, ServiceError>)
        ensures
            match reply {
                Ok(levels) => self.order_books@.contains_key(pair@) && levels@ == price_levels(
                    self.order_books@[pair@],
                ),
                Err(e) => e == ServiceError::NotFound && !self.order_books@.contains_key(pair@),
            },
    {
        match self.order_books.get(pair) {
            Some(book) => {
                let mut levels: Vec<(Decimal, Decimal)> = Vec::new();
                let mut i: usize = 0;
                while i < book.len()
                    invariant
                        0 <= i <= book@.len(),
                        levels@ == price_levels(book@.subrange(0, i as int)),
                    decreases book@.len() - i,
                {
                    levels.push((book[i].price, book[i].volume));
                    assert(levels@ =~= price_levels(book@.subrange(0, i + 1)));
                    i += 1;
                }
                assert(book@.subrange(0, i as int) == book@);
                Ok(levels)
            },
            None => Err(ServiceError::NotFound),
        }
    }

    /// The ledger records of `trader`, in the order in which they were appended.
    pub fn get_trade_book(&self, trader: &str) -> (reply: Result<Vec<Trade>, ServiceError>)
        ensures
            match reply {
                Ok(trades) => self.trade_books@.contains_key(trader@) && trades@
                    == self.trade_books@[trader@],
                Err(e) => e == ServiceError::NotFound && !self.trade_books@.contains_key(trader@),
            },
    {
        match self.trade_books.get(trader) {
            Some(list) => {
                let mut trades: Vec<Trade> = Vec::new();
                let mut i: usize = 0;
                while i < list.len()
                    invariant
                        0 <= i <= list@.len(),
                        trades@ == list@.subrange(0, i as int),
                    decreases list@.len() - i,
                {
                    trades.push(list[i].clone());
                    assert(trades@ =~= list@.subrange(0, i + 1));
                    i += 1;
                }
                assert(list@.subrange(0, i as int) == list@);
                Ok(trades)
            },
            None => Err(ServiceError::NotFound),
        }
    }

    /// Processes one submission with a given acknowledgement id and timestamp.
    ///
    /// The acknowledgement is appended to the trader's ledger. Where the
    /// instrument has a book, the order is matched against it, the fills
    /// follow the acknowledgement in the ledger, and the book is rewritten.
    /// Returns whether the instrument had a book.
    pub fn apply_order(&mut self, request: &OrderRequest, ack_id: u128, now: &String) -> (matched: bool)
        ensures
            matched == old(self).order_books@.contains_key(request.pair@),
            final(self).order_books@ == books_after(old(self).order_books@, *request, ack_id, *now),
            final(self).trade_books@ == ledger_after(
                old(self).trade_books@,
                old(self).order_books@,
                *request,
                ack_id,
                *now,
            ),
    {
        let ack = Trade {
            id: ack_id,
            trader: request.trader.clone(),
            pair: request.pair.clone(),
            price: request.price,
            volume: request.volume,
            side: match request.side {
                Direction::Buy => TradeSide::Buy,
                Direction::Sell => TradeSide::Sell,
            },
            timestamp: now.clone(),
            order_type: request.order_type,
            status: TradeStatus::New,
        };
        let ghost had = old(self).trade_books.listed(request.trader@);
        self.trade_books.append(request.trader.as_str(), ack);
        let outcome = match self.order_books.get(request.pair.as_str()) {
            Some(book) => Some(match_order(book, request, ack_id, now)),
            None => None,
        };
        match outcome {
            Some(m) => {
                self.trade_books.extend(request.trader.as_str(), m.trades);
                self.order_books.replace(request.pair.as_str(), m.book);
                proof {
                    let fills = matched_trades(old(self).order_books@[request.pair@], *request, *now);
                    let ack_seq = seq![ack_record(*request, ack_id, *now)];
                    assert(had.push(ack) + fills =~= had + (ack_seq + fills));
                    assert(self.trade_books@ =~= ledger_after(
                        old(self).trade_books@,
                        old(self).order_books@,
                        *request,
                        ack_id,
                        *now,
                    ));
                }
                true
            },
            None => {
                proof {
                    assert(had.push(ack) =~= had + seq![ack_record(*request, ack_id, *now)]);
                }
                false
            },
        }
    }

    /// Puts the books of one refresh cycle in place of those the
    /// instruments had. An instrument whose fetch failed gets an empty book.
    /// The ledger is not touched.
    pub fn refresh(&mut self, fetched: &Vec<Fetched>)
        ensures
            final(self).order_books@ == refreshed(old(self).order_books@, fetched@),
            final(self).trade_books == old(self).trade_books,
    {
        let mut i: usize = 0;
        while i < fetched.len()
            invariant
                0 <= i <= fetched@.len(),
                self.order_books@ == refreshed(old(self).order_books@, fetched@.subrange(0, i as int)),
                self.trade_books == old(self).trade_books,
            decreases fetched@.len() - i,
        {
            let book = match &fetched[i].book {
                Some(book) => copy_orders(book),
                None => Vec::new(),
            };
            proof {
                assert(fetched@.subrange(0, i + 1).drop_last() == fetched@.subrange(0, i as int));
            }
            self.order_books.replace(fetched[i].symbol.as_str(), book);
            i += 1;
        }
        assert(fetched@.subrange(0, i as int) == fetched@);
    }

    /// Processes the submissions one after the other, in the order given.
    pub fn apply_all(&mut self, submissions: &Vec<Submission>)
        ensures
            final(self).order_books@ == books_after_all(old(self).order_books@, submissions@),
            final(self).trade_books@ == ledger_after_all(
                old(self).trade_books@,
                old(self).order_books@,
                submissions@,
            ),
    {
        let mut i: usize = 0;
        while i < submissions.len()
            invariant
                0 <= i <= submissions@.len(),
                self.order_books@ == books_after_all(old(self).order_books@, submissions@.subrange(0, i as int)),
                self.trade_books@ == ledger_after_all(
                    old(self).trade_books@,
                    old(self).order_books@,
                    submissions@.subrange(0, i as int),
                ),
            decreases submissions@.len() - i,
        {
            let submission = &submissions[i];
            proof {
                assert(submissions@.subrange(0, i + 1).drop_last() == submissions@.subrange(0, i as int));
            }
            self.apply_order(&submission.request, submission.ack_id, &submission.now);
            i += 1;
        }
        assert(submissions@.subrange(0, i as int) == submissions@);
    }

    /// Processes one submission: draws a fresh id and the current time, and
    /// applies the order with them. Returns what was drawn, and whether the
    /// instrument had a book.
    pub fn process_order(&mut self, request: &OrderRequest) -> (done: Processed)
        ensures
            done.matched == old(self).order_books@.contains_key(request.pair@),
            final(self).order_books@ == books_after(
                old(self).order_books@,
                *request,
                done.ack_id,
                done.timestamp,
            ),
            final(self).trade_books@ == ledger_after(
                old(self).trade_books@,
                old(self).order_books@,
                *request,
                done.ack_id,
                done.timestamp,
            ),
    {
        let ack_id = fresh_id();
        let timestamp = timestamp_now();
        let matched = self.apply_order(request, ack_id, &timestamp);
        Processed { ack_id, timestamp, matched }
    }
}

} // verus!
