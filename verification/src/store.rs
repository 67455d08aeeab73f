//! Lists kept under text keys: the books by symbol, the ledger by trader.
use vstd::prelude::*;
use crate::order::{Order, Trade};
use crate::text::str_eq;

verus! {

/// One key with the list kept under it.
pub struct Shelf<T> {
    pub key: String,
    pub items: Vec<T>,
}

/// Lists of `T` kept under text keys. A key is looked up by its
/// characters; it has a list from the first time something is put under it.
pub struct Registry<T> {
    pub shelves: Vec<Shelf<T>>,
}

/// The books of all instruments, by symbol.
pub type BookStore = Registry<Order>;

/// The trade records of all traders, by trader, each list in the order in
/// which its records were appended.
pub type Ledger = Registry<Trade>;

/// The keys of the shelves, in shelf order.
pub open spec fn shelf_keys<T>(shelves: Seq<Shelf<T>>) -> Seq<Seq<char>> {
    Seq::new(shelves.len(), |i: int| shelves[i].key@)
}

/// Where `key` first occurs in `keys`; the length of `keys` if nowhere.
pub open spec fn position(keys: Seq<Seq<char>>, key: Seq<char>) -> int
    decreases keys.len(),
{
    if keys.len() == 0 || keys[0] == key {
        0
    } else {
        1 + position(keys.drop_first(), key)
    }
}

/// The first occurrence of a key is where no earlier key equals it.
pub proof fn lemma_position_is(keys: Seq<Seq<char>>, key: Seq<char>, p: int)
    requires
        0 <= p <= keys.len(),
        forall|j: int| 0 <= j < p ==> keys[j] != key,
        p < keys.len() ==> keys[p] == key,
    ensures
        position(keys, key) == p,
    decreases keys.len(),
{
    if keys.len() == 0 || keys[0] == key {
    } else {
        let rest = keys.drop_first();
        assert forall|j: int| 0 <= j < p - 1 implies rest[j] != key by {
            assert(rest[j] == keys[j + 1]);
        }
        lemma_position_is(rest, key, p - 1);
    }
}

/// The position of a key lies within the keys and names its first occurrence.
pub proof fn lemma_position_bounds(keys: Seq<Seq<char>>, key: Seq<char>)
    ensures
        0 <= position(keys, key) <= keys.len(),
        position(keys, key) < keys.len() ==> keys[position(keys, key)] == key,
        forall|j: int| 0 <= j < position(keys, key) ==> keys[j] != key,
    decreases keys.len(),
{
    if keys.len() == 0 || keys[0] == key {
    } else {
        let rest = keys.drop_first();
        lemma_position_bounds(rest, key);
        assert forall|j: int| 0 <= j < position(keys, key) implies keys[j] != key by {
            if j > 0 {
                assert(keys[j] == rest[j - 1]);
            }
        }
    }
}

/// A further key at the end is found there, and only by those who look
/// for it in vain among the earlier keys.
proof fn lemma_position_push(keys: Seq<Seq<char>>, added: Seq<char>, key: Seq<char>)
    ensures
        position(keys.push(added), key) == if position(keys, key) < keys.len() || added == key {
            position(keys, key)
        } else {
            keys.len() as int + 1
        },
{
    lemma_position_bounds(keys, key);
    let p = position(keys, key);
    let longer = keys.push(added);
    if p < keys.len() {
        lemma_position_is(longer, key, p);
    } else if added == key {
        lemma_position_is(longer, key, keys.len() as int);
    } else {
        lemma_position_is(longer, key, keys.len() as int + 1);
    }
}

/// What a registry shows after the list on one shelf changed.
proof fn lemma_shelf_changed<T>(before: Registry<T>, after: Registry<T>, i: int, key: Seq<char>, items: Seq<T>)
    requires
        0 <= i < before.shelves@.len(),
        i == position(shelf_keys(before.shelves@), key),
        after.shelves@.len() == before.shelves@.len(),
        forall|j: int| 0 <= j < before.shelves@.len() ==> (#[trigger] after.shelves@[j]).key@ == before.shelves@[j].key@,
        forall|j: int| 0 <= j < before.shelves@.len() && j != i ==> (#[trigger] after.shelves@[j]).items@ == before.shelves@[j].items@,
        after.shelves@[i].items@ == items,
    ensures
        after@ == before@.insert(key, items),
{
    let keys = shelf_keys(before.shelves@);
    assert(shelf_keys(after.shelves@) =~= keys);
    lemma_position_bounds(keys, key);
    assert forall|k: Seq<char>| #[trigger] after@.contains_key(k) <==> before@.insert(key, items).contains_key(k) by {
        lemma_position_bounds(keys, k);
    }
    assert forall|k: Seq<char>| #[trigger] after@.contains_key(k) implies after@[k] == before@.insert(key, items)[k] by {
        lemma_position_bounds(keys, k);
    }
    assert(after@ =~= before@.insert(key, items));
}

/// What a registry shows after a shelf with a key it did not have was added.
proof fn lemma_shelf_added<T>(before: Registry<T>, after: Registry<T>, key: Seq<char>, items: Seq<T>)
    requires
        position(shelf_keys(before.shelves@), key) == before.shelves@.len(),
        after.shelves@.len() == before.shelves@.len() + 1,
        forall|j: int| 0 <= j < before.shelves@.len() ==> #[trigger] after.shelves@[j] == before.shelves@[j],
        after.shelves@[before.shelves@.len() as int].key@ == key,
        after.shelves@[before.shelves@.len() as int].items@ == items,
    ensures
        after@ == before@.insert(key, items),
{
    let keys = shelf_keys(before.shelves@);
    assert(shelf_keys(after.shelves@) =~= keys.push(key));
    assert forall|k: Seq<char>| #[trigger] after@.contains_key(k) <==> before@.insert(key, items).contains_key(k) by {
        lemma_position_push(keys, key, k);
        lemma_position_bounds(keys, k);
    }
    assert forall|k: Seq<char>| #[trigger] after@.contains_key(k) implies after@[k] == before@.insert(key, items)[k] by {
        lemma_position_push(keys, key, k);
        lemma_position_bounds(keys, k);
    }
    assert(after@ =~= before@.insert(key, items));
}

impl<T> View for Registry<T> {
    type V = Map<Seq<char>, Seq<T>>;

    /// The list under each key that has one.
    open spec fn view(&self) -> Map<Seq<char>, Seq<T>> {
        Map::new(
            |key: Seq<char>| position(shelf_keys(self.shelves@), key) < self.shelves@.len(),
            |key: Seq<char>| self.shelves@[position(shelf_keys(self.shelves@), key)].items@,
        )
    }
}

impl<T> Registry<T> {
    /// The list under `key`, or the empty list where `key` has none.
    pub open spec fn listed(&self, key: Seq<char>) -> Seq<T> {
        if self@.contains_key(key) {
            self@[key]
        } else {
            Seq::empty()
        }
    }

    /// A registry without keys.
    pub fn new() -> (registry: Registry<T>)
        ensures
            registry@ == Map::<Seq<char>, Seq<T>>::empty(),
    {
        let registry = Registry { shelves: Vec::new() };
        assert(registry@ =~= Map::<Seq<char>, Seq<T>>::empty());
        registry
    }

    /// The index of the shelf that `key` is looked up on.
    fn find(&self, key: &str) -> (found: Option<usize>)
        ensures
            match found {
                Some(i) => i < self.shelves@.len() && i == position(shelf_keys(self.shelves@), key@),
                None => position(shelf_keys(self.shelves@), key@) == self.shelves@.len(),
            },
    {
        let mut i: usize = 0;
        while i < self.shelves.len()
            invariant
                0 <= i <= self.shelves@.len(),
                forall|j: int| 0 <= j < i ==> shelf_keys(self.shelves@)[j] != key@,
            decreases self.shelves@.len() - i,
        {
            if str_eq(self.shelves[i].key.as_str(), key) {
                proof {
                    lemma_position_is(shelf_keys(self.shelves@), key@, i as int);
                }
                return Some(i);
            }
            i += 1;
        }
        proof {
            lemma_position_is(shelf_keys(self.shelves@), key@, i as int);
        }
        None
    }

    /// Whether `key` has a list.
    pub fn contains(&self, key: &str) -> (yes: bool)
        ensures
            yes == self@.contains_key(key@),
    {
        self.find(key).is_some()
    }

    /// The list under `key`, if it has one.
    pub fn get(&self, key: &str) -> (list: Option<&Vec<T>>)
        ensures
            match list {
                Some(items) => self@.contains_key(key@) && items@ == self@[key@],
                None => !self@.contains_key(key@),
            },
    {
        match self.find(key) {
            Some(i) => Some(&self.shelves[i].items),
            None => None,
        }
    }

    /// Puts `items` under `key`, in place of the list it had, if any.
    pub fn replace(&mut self, key: &str, items: Vec<T>)
        ensures
            final(self)@ == old(self)@.insert(key@, items@),
    {
        let ghost put = items@;
        match self.find(key) {
            Some(i) => {
                self.shelves[i].items = items;
                proof {
                    lemma_shelf_changed(*old(self), *self, i as int, key@, put);
                }
            },
            None => {
                self.shelves.push(Shelf { key: key.to_owned(), items });
                proof {
                    lemma_shelf_added(*old(self), *self, key@, put);
                }
            },
        }
    }

    /// Appends `item` to the list under `key`, which starts empty.
    pub fn append(&mut self, key: &str, item: T)
        ensures
            final(self)@ == old(self)@.insert(key@, old(self).listed(key@).push(item)),
    {
        match self.find(key) {
            Some(i) => {
                self.shelves[i].items.push(item);
                proof {
                    lemma_shelf_changed(*old(self), *self, i as int, key@, old(self).listed(key@).push(item));
                }
            },
            None => {
                let mut items: Vec<T> = Vec::new();
                items.push(item);
                self.replace(key, items);
                assert(Seq::<T>::empty().push(item) =~= seq![item]);
            },
        }
    }

    /// Appends all of `items`, in order, to the list under `key`, which
    /// starts empty.
    pub fn extend(&mut self, key: &str, items: Vec<T>)
        ensures
            final(self)@ == old(self)@.insert(key@, old(self).listed(key@) + items@),
    {
        let mut items = items;
        let ghost added = items@;
        match self.find(key) {
            Some(i) => {
                self.shelves[i].items.append(&mut items);
                proof {
                    lemma_shelf_changed(*old(self), *self, i as int, key@, old(self).listed(key@) + added);
                }
            },
            None => {
                assert(Seq::<T>::empty() + items@ =~= items@);
                self.replace(key, items);
            },
        }
    }
}

} // verus!
