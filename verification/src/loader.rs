//! Books from snapshot files.
use vstd::prelude::*;
use crate::csvtext::csv_rows_of;
use crate::order::Order;
use crate::ranking::{rank_orders, ranked, Ranking};
use crate::snapshot::{decode_snapshot, records_of, rows_records, symbol_of, symbol_of_path, OrderRecord};
use crate::store::{lemma_position_bounds, shelf_keys, BookStore, Registry};

verus! {

/// A snapshot file as it was read: where it lies and what it holds.
pub struct SnapshotFile {
    pub path: String,
    pub data: Vec<u8>,
}

/// The records that the files hold for `symbol`, file after file, each
/// file's records in file order.
pub open spec fn gathered_records(files: Seq<SnapshotFile>, symbol: Seq<char>) -> Seq<OrderRecord>
    decreases files.len(),
{
    if files.len() == 0 {
        Seq::empty()
    } else {
        let earlier = gathered_records(files.drop_last(), symbol);
        if symbol_of(files.last().path@) == symbol {
            earlier + rows_records(csv_rows_of(files.last().data@))
        } else {
            earlier
        }
    }
}

/// Whether `book` holds orders of the given records, under whatever ids,
/// sorted in matching priority: asks by ascending and bids by descending
/// price, orders of one side and price in the order of the records.
pub open spec fn loaded_from(book: Seq<Order>, records: Seq<OrderRecord>) -> bool {
    exists|orders: Seq<Order>| records_of(orders) == records && book == ranked(orders, Ranking::SidePriority)
}

/// Sorts every book of the store by `ranking`.
pub fn rank_books(store: &mut BookStore, ranking: Ranking)
    ensures
        final(store)@.dom() == old(store)@.dom(),
        forall|symbol: Seq<char>| #[trigger]
            final(store)@.contains_key(symbol) ==> final(store)@[symbol] == ranked(
                old(store)@[symbol],
                ranking,
            ),
{
    let ghost keys = shelf_keys(store.shelves@);
    let mut i: usize = 0;
    while i < store.shelves.len()
        invariant
            0 <= i <= store.shelves@.len(),
            store.shelves@.len() == old(store).shelves@.len(),
            keys == shelf_keys(old(store).shelves@),
            shelf_keys(store.shelves@) == keys,
            forall|j: int| 0 <= j < i ==> (#[trigger] store.shelves@[j]).items@ == ranked(
                old(store).shelves@[j].items@,
                ranking,
            ),
            forall|j: int| i <= j < store.shelves@.len() ==> (#[trigger] store.shelves@[j]).items@ == old(
                store,
            ).shelves@[j].items@,
        decreases store.shelves@.len() - i,
    {
        let ghost before = store.shelves@;
        let sorted = rank_orders(&store.shelves[i].items, ranking);
        store.shelves[i].items = sorted;
        proof {
            assert(shelf_keys(store.shelves@) =~= keys) by {
                assert forall|j: int| 0 <= j < keys.len() implies shelf_keys(store.shelves@)[j] == keys[j] by {
                    assert(shelf_keys(before)[j] == before[j].key@);
                }
            }
        }
        i += 1;
    }
    proof {
        assert(store@.dom() =~= old(store)@.dom());
        assert forall|symbol: Seq<char>| #[trigger] store@.contains_key(symbol) implies store@[symbol] == ranked(
            old(store)@[symbol],
            ranking,
        ) by {
            lemma_position_bounds(keys, symbol);
        }
    }
}

/// Gathers the orders of snapshot files into books by symbol, file after
/// file. A file without a readable order adds nothing.
pub fn gather_books(files: &Vec<SnapshotFile>) -> (store: BookStore)
    ensures
        forall|symbol: Seq<char>| #[trigger]
            store@.contains_key(symbol) <==> gathered_records(files@, symbol).len() > 0,
        forall|symbol: Seq<char>| #[trigger]
            store@.contains_key(symbol) ==> records_of(store@[symbol]) == gathered_records(files@, symbol),
{
    let mut store: BookStore = Registry::new();
    let mut i: usize = 0;
    while i < files.len()
        invariant
            0 <= i <= files@.len(),
            forall|symbol: Seq<char>| #[trigger]
                store@.contains_key(symbol) <==> gathered_records(files@.subrange(0, i as int), symbol).len()
                    > 0,
            forall|symbol: Seq<char>| #[trigger]
                store@.contains_key(symbol) ==> records_of(store@[symbol]) == gathered_records(
                    files@.subrange(0, i as int),
                    symbol,
                ),
        decreases files@.len() - i,
    {
        let ghost before = store@;
        let ghost upto = files@.subrange(0, i + 1);
        proof {
            assert(upto.drop_last() == files@.subrange(0, i as int));
            assert(upto.last() == files@[i as int]);
        }
        let symbol = symbol_of_path(files[i].path.as_str());
        let orders = decode_snapshot(files[i].data.as_slice());
        if orders.len() > 0 {
            let ghost added = orders@;
            let ghost had = store.listed(symbol@);
            store.extend(symbol.as_str(), orders);
            proof {
                assert(records_of(had + added) =~= records_of(had) + records_of(added));
                assert(records_of(Seq::<Order>::empty()) =~= Seq::<OrderRecord>::empty());
                assert forall|s: Seq<char>| #[trigger] store@.contains_key(s) <==> gathered_records(upto, s).len()
                    > 0 by {
                    assert(before.contains_key(s) <==> gathered_records(upto.drop_last(), s).len() > 0);
                }
                assert forall|s: Seq<char>| #[trigger] store@.contains_key(s) implies records_of(store@[s])
                    == gathered_records(upto, s) by {
                    assert(before.contains_key(s) <==> gathered_records(upto.drop_last(), s).len() > 0);
                    if s == symbol@ {
                        if !before.contains_key(s) {
                            assert(gathered_records(upto.drop_last(), s) =~= Seq::<OrderRecord>::empty());
                        }
                    } else {
                        assert(before.contains_key(s));
                    }
                }
            }
        } else {
            proof {
                assert(records_of(orders@) =~= Seq::<OrderRecord>::empty());
                assert forall|s: Seq<char>| gathered_records(upto, s) == gathered_records(
                    upto.drop_last(),
                    s,
                ) by {
                    assert(gathered_records(upto.drop_last(), s) + Seq::<OrderRecord>::empty()
                        =~= gathered_records(upto.drop_last(), s));
                }
                assert forall|s: Seq<char>| #[trigger] store@.contains_key(s) <==> gathered_records(upto, s).len()
                    > 0 by {
                    assert(before.contains_key(s) <==> gathered_records(upto.drop_last(), s).len() > 0);
                }
            }
        }
        i += 1;
    }
    assert(files@.subrange(0, i as int) == files@);
    store
}

/// Loads books from snapshot files. The symbol of a file is its file name
/// up to the first `_`; every order gets a fresh id; a record that cannot
/// be read is passed over. Each book is sorted in matching priority.
pub fn load_order_books(files: &Vec<SnapshotFile>) -> (store: BookStore)
    ensures
        forall|symbol: Seq<char>| #[trigger]
            store@.contains_key(symbol) <==> gathered_records(files@, symbol).len() > 0,
        forall|symbol: Seq<char>| #[trigger]
            store@.contains_key(symbol) ==> loaded_from(store@[symbol], gathered_records(files@, symbol)),
{
    let mut store = gather_books(files);
    let ghost gathered = store@;
    rank_books(&mut store, Ranking::SidePriority);
    proof {
        assert forall|symbol: Seq<char>| #[trigger] store@.contains_key(symbol) implies loaded_from(
            store@[symbol],
            gathered_records(files@, symbol),
        ) by {
            assert(gathered.dom().contains(symbol));
            assert(gathered.contains_key(symbol));
            assert(records_of(gathered[symbol]) == gathered_records(files@, symbol));
        }
        assert forall|symbol: Seq<char>| #[trigger] store@.contains_key(symbol) <==> gathered_records(
            files@,
            symbol,
        ).len() > 0 by {
            assert(gathered.contains_key(symbol) <==> gathered.dom().contains(symbol));
        }
    }
    store
}

} // verus!
