//! The orders in which a book is laid out, and a stable sort by them.
use vstd::prelude::*;
use crate::order::{Order, Side};

verus! {

/// A rule by which the orders of a book are ranked.
#[derive(Clone, Copy, Debug, PartialEq, Eq, Structural)]
pub enum Ranking {
    /// Highest price first, whatever the side.
    PriceDescending,
    /// Asks in front of bids; on each side the highest price first.
    SidePriceDescending,
    /// Asks in front of bids; on each side the price that matches first:
    /// the lowest ask, the highest bid.
    SidePriority,
}

/// Where a side stands when asks go in front of bids.
pub open spec fn side_position(side: Side) -> int {
    match side {
        Side::Ask => 0,
        Side::Bid => 1,
    }
}

/// Whether `a` ranks strictly in front of `b`.
pub open spec fn precedes(ranking: Ranking, a: Order, b: Order) -> bool {
    match ranking {
        Ranking::PriceDescending => a.price.units > b.price.units,
        Ranking::SidePriceDescending => side_position(a.side) < side_position(b.side) || (a.side
            == b.side && a.price.units > b.price.units),
        Ranking::SidePriority => side_position(a.side) < side_position(b.side) || (a.side
            == b.side && match a.side {
            Side::Ask => a.price.units < b.price.units,
            Side::Bid => a.price.units > b.price.units,
        }),
    }
}

/// Whether no order of `s` stands behind one that it precedes.
pub open spec fn is_ranked(s: Seq<Order>, ranking: Ranking) -> bool {
    forall|i: int, j: int| 0 <= i < j < s.len() ==> !precedes(ranking, #[trigger] s[j], #[trigger] s[i])
}

/// Where `x` goes into the ranked sequence `s`: in front of the trailing
/// orders that it precedes, so behind every order of its own rank.
pub open spec fn insertion_point(s: Seq<Order>, x: Order, ranking: Ranking) -> int
    decreases s.len(),
{
    if s.len() > 0 && precedes(ranking, x, s.last()) {
        insertion_point(s.drop_last(), x, ranking)
    } else {
        s.len() as int
    }
}

/// The orders of `s` sorted by `ranking`, orders of one rank staying in the
/// order in which `s` has them.
pub open spec fn ranked(s: Seq<Order>, ranking: Ranking) -> Seq<Order>
    decreases s.len(),
{
    if s.len() == 0 {
        Seq::empty()
    } else {
        let front = ranked(s.drop_last(), ranking);
        front.insert(insertion_point(front, s.last(), ranking), s.last())
    }
}

/// The insertion point splits `s` into the orders that `x` does not precede
/// up to its left neighbour, and those that it precedes.
pub proof fn lemma_insertion_point(s: Seq<Order>, x: Order, ranking: Ranking)
    ensures
        0 <= insertion_point(s, x, ranking) <= s.len(),
        forall|j: int| insertion_point(s, x, ranking) <= j < s.len() ==> precedes(ranking, x, #[trigger] s[j]),
        insertion_point(s, x, ranking) > 0 ==> !precedes(
            ranking,
            x,
            s[insertion_point(s, x, ranking) - 1],
        ),
    decreases s.len(),
{
    if s.len() > 0 && precedes(ranking, x, s.last()) {
        lemma_insertion_point(s.drop_last(), x, ranking);
        let p = insertion_point(s, x, ranking);
        assert forall|j: int| p <= j < s.len() implies precedes(ranking, x, #[trigger] s[j]) by {
            if j < s.len() - 1 {
                assert(s[j] == s.drop_last()[j]);
            }
        }
        if p > 0 {
            assert(s[p - 1] == s.drop_last()[p - 1]);
        }
    }
}

/// The insertion point is the one place that splits `s` so.
pub proof fn lemma_insertion_point_is(s: Seq<Order>, x: Order, ranking: Ranking, p: int)
    requires
        0 <= p <= s.len(),
        forall|j: int| p <= j < s.len() ==> precedes(ranking, x, #[trigger] s[j]),
        p > 0 ==> !precedes(ranking, x, s[p - 1]),
    ensures
        insertion_point(s, x, ranking) == p,
    decreases s.len(),
{
    if s.len() > 0 && precedes(ranking, x, s.last()) {
        if p == s.len() {
            assert(!precedes(ranking, x, s[p - 1]));
        }
        lemma_insertion_point_is(s.drop_last(), x, ranking, p);
    } else if p < s.len() {
        assert(precedes(ranking, x, s[s.len() - 1]));
    }
}

/// Sorting keeps the number of orders.
pub proof fn lemma_ranked_len(s: Seq<Order>, ranking: Ranking)
    ensures
        ranked(s, ranking).len() == s.len(),
    decreases s.len(),
{
    if s.len() > 0 {
        lemma_ranked_len(s.drop_last(), ranking);
        lemma_insertion_point(ranked(s.drop_last(), ranking), s.last(), ranking);
    }
}

/// An order put in at its insertion point leaves a ranked sequence ranked.
pub proof fn lemma_insert_keeps_ranked(s: Seq<Order>, x: Order, ranking: Ranking)
    requires
        is_ranked(s, ranking),
    ensures
        is_ranked(s.insert(insertion_point(s, x, ranking), x), ranking),
{
    lemma_insertion_point(s, x, ranking);
    let p = insertion_point(s, x, ranking);
    let r = s.insert(p, x);
    assert forall|i: int, j: int| 0 <= i < j < r.len() implies !precedes(
        ranking,
        #[trigger] r[j],
        #[trigger] r[i],
    ) by {
        if j < p {
            assert(r[i] == s[i] && r[j] == s[j]);
        } else if j == p {
            assert(r[i] == s[i]);
            assert(!precedes(ranking, x, s[p - 1]));
            if i < p - 1 {
                assert(!precedes(ranking, s[p - 1], s[i]));
            }
        } else if i < p {
            assert(r[i] == s[i] && r[j] == s[j - 1]);
        } else if i == p {
            assert(r[j] == s[j - 1]);
            assert(precedes(ranking, x, s[j - 1]));
        } else {
            assert(r[i] == s[i - 1] && r[j] == s[j - 1]);
        }
    }
}

/// What sorting gives is ranked.
pub proof fn lemma_ranked_is_ranked(s: Seq<Order>, ranking: Ranking)
    ensures
        is_ranked(ranked(s, ranking), ranking),
    decreases s.len(),
{
    if s.len() > 0 {
        lemma_ranked_is_ranked(s.drop_last(), ranking);
        lemma_insert_keeps_ranked(ranked(s.drop_last(), ranking), s.last(), ranking);
    }
}

/// Sorting keeps the orders: each as often as before.
pub proof fn lemma_ranked_permutes(s: Seq<Order>, ranking: Ranking)
    ensures
        ranked(s, ranking).to_multiset() == s.to_multiset(),
    decreases s.len(),
{
    broadcast use vstd::seq_lib::group_to_multiset_ensures;

    if s.len() == 0 {
        assert(ranked(s, ranking) == s);
    } else {
        let front = ranked(s.drop_last(), ranking);
        let x = s.last();
        let p = insertion_point(front, x, ranking);
        lemma_ranked_permutes(s.drop_last(), ranking);
        lemma_insertion_point(front, x, ranking);
        let r = front.insert(p, x);
        assert(r.remove(p) == front);
        assert(r.to_multiset().remove(x) == front.to_multiset());
        assert(r.to_multiset().count(x) > 0) by {
            assert(r[p] == x);
            assert(r.contains(x));
        }
        assert(r.to_multiset() =~= front.to_multiset().insert(x));
        assert(s.drop_last().push(x) == s);
    }
}

/// Whether neither of the two orders ranks in front of the other.
pub open spec fn same_rank(ranking: Ranking, a: Order, b: Order) -> bool {
    !precedes(ranking, a, b) && !precedes(ranking, b, a)
}

/// The test for the orders that rank as `like` does.
pub open spec fn ranks_as(ranking: Ranking, like: Order) -> spec_fn(Order) -> bool {
    |order: Order| same_rank(ranking, order, like)
}

/// Sorting is stable: the orders of any one rank stand in the sorted
/// sequence in the order in which the sequence that was sorted has them.
pub proof fn lemma_ranked_stable(s: Seq<Order>, ranking: Ranking, like: Order)
    ensures
        ranked(s, ranking).filter(ranks_as(ranking, like)) == s.filter(ranks_as(ranking, like)),
    decreases s.len(),
{
    reveal(Seq::filter);
    let test = ranks_as(ranking, like);
    if s.len() > 0 {
        let front = ranked(s.drop_last(), ranking);
        let x = s.last();
        let p = insertion_point(front, x, ranking);
        lemma_ranked_stable(s.drop_last(), ranking, like);
        lemma_insertion_point(front, x, ranking);
        let a = front.subrange(0, p);
        let b = front.subrange(p, front.len() as int);
        let r = front.insert(p, x);
        assert(front == a + b);
        assert(r == (a + seq![x]) + b);
        Seq::filter_distributes_over_add(a, b, test);
        Seq::filter_distributes_over_add(a + seq![x], b, test);
        Seq::filter_distributes_over_add(a, seq![x], test);
        assert(seq![x].drop_last() == Seq::<Order>::empty());
        assert(Seq::<Order>::empty().filter(test) == Seq::<Order>::empty());
        if test(x) {
            assert(seq![x].filter(test) == seq![x]) by {
                assert(seq![x].last() == x);
                assert(Seq::<Order>::empty().push(x) == seq![x]);
            }
            assert forall|e: Order| b.contains(e) implies !test(e) by {
                let j = choose|j: int| 0 <= j < b.len() && b[j] == e;
                assert(b[j] == front[p + j]);
                assert(precedes(ranking, x, front[p + j]));
            }
            b.lemma_all_neg_filter_empty(test);
            assert(b.filter(test) == Seq::<Order>::empty());
            assert(r.filter(test) == (a.filter(test) + seq![x]) + Seq::<Order>::empty());
            assert(r.filter(test) =~= (a.filter(test) + b.filter(test)).push(x));
        } else {
            assert(seq![x].filter(test) == Seq::<Order>::empty());
            assert(r.filter(test) =~= a.filter(test) + b.filter(test));
        }
    }
}

/// Whether `a` ranks strictly in front of `b`.
pub fn comes_before(ranking: Ranking, a: &Order, b: &Order) -> (before: bool)
    ensures
        before == precedes(ranking, *a, *b),
{
    match ranking {
        Ranking::PriceDescending => a.price.units > b.price.units,
        Ranking::SidePriceDescending => match (a.side, b.side) {
            (Side::Ask, Side::Bid) => true,
            (Side::Bid, Side::Ask) => false,
            _ => a.price.units > b.price.units,
        },
        Ranking::SidePriority => match (a.side, b.side) {
            (Side::Ask, Side::Bid) => true,
            (Side::Bid, Side::Ask) => false,
            (Side::Ask, Side::Ask) => a.price.units < b.price.units,
            (Side::Bid, Side::Bid) => a.price.units > b.price.units,
        },
    }
}

/// Sorts `orders` by `ranking`. The sort is stable: orders of one rank stay
/// in the order in which `orders` has them.
pub fn rank_orders(orders: &Vec<Order>, ranking: Ranking) -> (sorted: Vec<Order>)
    ensures
        sorted@ == ranked(orders@, ranking),
{
    let mut sorted: Vec<Order> = Vec::new();
    let mut i: usize = 0;
    while i < orders.len()
        invariant
            0 <= i <= orders.len(),
            sorted@ == ranked(orders@.subrange(0, i as int), ranking),
            sorted@.len() == i,
        decreases orders.len() - i,
    {
        let x = orders[i].clone();
        let mut p: usize = sorted.len();
        while p > 0 && comes_before(ranking, &x, &sorted[p - 1])
            invariant
                0 <= p <= sorted@.len(),
                forall|j: int| p <= j < sorted@.len() ==> precedes(ranking, x, #[trigger] sorted@[j]),
            decreases p,
        {
            p -= 1;
        }
        proof {
            lemma_insertion_point_is(sorted@, x, ranking, p as int);
            assert(orders@.subrange(0, i + 1).drop_last() == orders@.subrange(0, i as int));
        }
        sorted.insert(p, x);
        i += 1;
    }
    assert(orders@.subrange(0, i as int) == orders@);
    sorted
}

} // verus!
