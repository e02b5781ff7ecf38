//! Properties of matching and of the book's structure, proved over the model.
use vstd::prelude::*;

use crate::order::Order;
use crate::orderbook::{
    add_spec, after_fill, crosses, eligible, first_eligible, has_eligible, insert_sorted,
    is_first_eligible, key_le, lemma_after_fill_wf, match_book, match_fill, model_wf, opposite,
    rebuild, same_bucket, BookModel,
};

verus! {

/// The side on which an incoming order would rest if it were added.
pub open spec fn own_side(m: BookModel, incoming: Order) -> Seq<Order> {
    if incoming.is_buy {
        m.bids
    } else {
        m.asks
    }
}

proof fn lemma_first_exists(s: Seq<Order>, incoming: Order, i: int)
    requires
        0 <= i < s.len(),
        eligible(s[i], incoming),
    ensures
        has_eligible(s, incoming),
        is_first_eligible(s, incoming, first_eligible(s, incoming)),
        first_eligible(s, incoming) <= i,
    decreases i,
{
    if forall|j: int| 0 <= j < i ==> !eligible(s[j], incoming) {
        assert(is_first_eligible(s, incoming, i));
    } else {
        let j = choose|j: int| 0 <= j < i && eligible(s[j], incoming);
        lemma_first_exists(s, incoming, j);
    }
}

proof fn lemma_first_of_some(s: Seq<Order>, incoming: Order)
    requires
        has_eligible(s, incoming),
    ensures
        is_first_eligible(s, incoming, first_eligible(s, incoming)),
{
    let i = choose|i: int| 0 <= i < s.len() && eligible(s[i], incoming);
    lemma_first_exists(s, incoming, i);
}

/// Price priority: when a resting order is eligible, a match happens, and it
/// executes at a price at least as good for the incoming order: no higher
/// for a buy, no lower for a sell. So of two eligible resting orders at
/// different prices, the one at the worse price is never selected.
pub proof fn lemma_price_priority(m: BookModel, incoming: Order, i: int)
    requires
        model_wf(m),
        0 <= i < opposite(m, incoming).len(),
        eligible(opposite(m, incoming)[i], incoming),
    ensures
        match_fill(m, incoming) is Some,
        incoming.is_buy ==> match_fill(m, incoming)->0.price <= opposite(m, incoming)[i].price,
        !incoming.is_buy ==> match_fill(m, incoming)->0.price >= opposite(m, incoming)[i].price,
{
    let s = opposite(m, incoming);
    lemma_first_exists(s, incoming, i);
    let k = first_eligible(s, incoming);
    if k < i {
        assert(key_le(s[k], s[i], !incoming.is_buy));
    }
}

/// Size eligibility: a match only ever selects a resting order whose minimum
/// fill size the incoming quantity meets, and whose price crosses.
pub proof fn lemma_size_eligibility(m: BookModel, incoming: Order)
    requires
        model_wf(m),
        match_fill(m, incoming) is Some,
    ensures
        match_fill(m, incoming)->0.cluster_size <= incoming.quantity,
        crosses(match_fill(m, incoming)->0, incoming),
{
    lemma_first_of_some(opposite(m, incoming), incoming);
}

/// Arrival order, in matching: of two orders of one bucket, the later one is
/// not selected while the earlier one rests.
pub proof fn lemma_arrival_order(m: BookModel, incoming: Order, i: int, j: int)
    requires
        model_wf(m),
        0 <= i < j < opposite(m, incoming).len(),
        same_bucket(opposite(m, incoming)[i], opposite(m, incoming)[j]),
        eligible(opposite(m, incoming)[j], incoming),
    ensures
        has_eligible(opposite(m, incoming), incoming),
        first_eligible(opposite(m, incoming), incoming) <= i,
{
    lemma_first_exists(opposite(m, incoming), incoming, i);
}

proof fn lemma_insert_sorted_split(s: Seq<Order>, o: Order, bid_side: bool) -> (p: int)
    requires
        forall|i: int, j: int| 0 <= i < j < s.len() ==> key_le(s[i], s[j], bid_side),
    ensures
        0 <= p <= s.len(),
        insert_sorted(s, o, bid_side) == s.insert(p, o),
        forall|i: int| 0 <= i < p ==> key_le(s[i], o, bid_side),
        forall|i: int| p <= i < s.len() ==> !key_le(s[i], o, bid_side),
    decreases s.len(),
{
    if s.len() == 0 {
        assert(s.insert(0, o) =~= seq![o]);
        0
    } else if key_le(s.last(), o, bid_side) {
        assert forall|i: int| 0 <= i < s.len() implies key_le(s[i], o, bid_side) by {
            if i < s.len() - 1 {
                assert(key_le(s[i], s.last(), bid_side));
            }
        }
        assert(s.insert(s.len() as int, o) =~= s.push(o));
        s.len() as int
    } else {
        let t = s.drop_last();
        let p = lemma_insert_sorted_split(t, o, bid_side);
        assert(s.insert(p, o) =~= t.insert(p, o).push(s.last()));
        assert forall|i: int| 0 <= i < p implies key_le(s[i], o, bid_side) by {
            assert(s[i] == t[i]);
        }
        assert forall|i: int| p <= i < s.len() implies !key_le(s[i], o, bid_side) by {
            if i < s.len() - 1 {
                assert(s[i] == t[i]);
            }
        }
        p
    }
}

/// Arrival order, in adding: an added order joins its side after every order
/// already resting in its bucket, which all keep their places.
pub proof fn lemma_add_joins_bucket_end(m: BookModel, o: Order)
    requires
        model_wf(m),
        o.quantity > 0,
    ensures
        exists|p: int|
            {
                &&& 0 <= p <= own_side(m, o).len()
                &&& own_side(add_spec(m, o), o) == own_side(m, o).insert(p, o)
                &&& forall|i: int|
                    0 <= i < own_side(m, o).len() && same_bucket(own_side(m, o)[i], o) ==> i < p
            },
{
    let s = own_side(m, o);
    let p = lemma_insert_sorted_split(s, o, o.is_buy);
    assert(own_side(add_spec(m, o), o) == s.insert(p, o));
}

/// Matching keeps the book well formed: best-first order on each side, and no
/// exhausted order at rest.
pub proof fn lemma_match_keeps_wf(m: BookModel, incoming: Order)
    requires
        model_wf(m),
    ensures
        model_wf(match_book(m, incoming)),
{
    let s = opposite(m, incoming);
    if has_eligible(s, incoming) {
        lemma_first_of_some(s, incoming);
        lemma_after_fill_wf(s, first_eligible(s, incoming), incoming, !incoming.is_buy);
    }
}

/// Cleanup: a match that drives the selected order's quantity to zero removes
/// that order from its side, so its bucket and level remain only as long as
/// other orders keep them.
pub proof fn lemma_cleanup(m: BookModel, incoming: Order)
    requires
        model_wf(m),
        has_eligible(opposite(m, incoming), incoming),
        opposite(m, incoming)[first_eligible(opposite(m, incoming), incoming)].quantity
            <= incoming.quantity,
    ensures
        opposite(match_book(m, incoming), incoming) == opposite(m, incoming).remove(
            first_eligible(opposite(m, incoming), incoming),
        ),
        model_wf(match_book(m, incoming)),
{
    lemma_match_keeps_wf(m, incoming);
}

/// No self-insertion: matching leaves the incoming order's own side as it
/// was and never grows the opposite side.
pub proof fn lemma_no_self_insertion(m: BookModel, incoming: Order)
    requires
        model_wf(m),
    ensures
        own_side(match_book(m, incoming), incoming) == own_side(m, incoming),
        opposite(match_book(m, incoming), incoming).len() <= opposite(m, incoming).len(),
{
    let s = opposite(m, incoming);
    if has_eligible(s, incoming) {
        lemma_first_of_some(s, incoming);
    }
}

proof fn lemma_rebuild_prefix(m: BookModel, n: int)
    requires
        model_wf(m),
        0 <= n <= m.bids.len() + m.asks.len(),
    ensures
        rebuild((m.bids + m.asks).take(n)) == (if n <= m.bids.len() {
            BookModel { bids: m.bids.take(n), asks: Seq::empty() }
        } else {
            BookModel { bids: m.bids, asks: m.asks.take(n - m.bids.len()) }
        }),
    decreases n,
{
    let all = m.bids + m.asks;
    if n == 0 {
        assert(all.take(0) =~= Seq::empty());
        assert(m.bids.take(0) =~= Seq::empty());
    } else {
        lemma_rebuild_prefix(m, n - 1);
        assert(all.take(n).drop_last() =~= all.take(n - 1));
        let o = all[n - 1];
        if n <= m.bids.len() {
            assert(o == m.bids[n - 1]);
            let t = m.bids.take(n - 1);
            if n > 1 {
                assert(key_le(t.last(), o, true));
            }
            assert(insert_sorted(t, o, true) =~= m.bids.take(n));
        } else {
            let a = n - m.bids.len();
            assert(o == m.asks[a - 1]);
            let t = m.asks.take(a - 1);
            if a > 1 {
                assert(key_le(t.last(), o, false));
            }
            assert(insert_sorted(t, o, false) =~= m.asks.take(a));
            assert(m.bids.take(m.bids.len() as int) =~= m.bids);
        }
    }
}

/// Round trip: adding the orders of a well-formed book's enumeration, in
/// order, to an empty book rebuilds the same levels, buckets and sequences.
pub proof fn lemma_round_trip(m: BookModel)
    requires
        model_wf(m),
    ensures
        rebuild(m.bids + m.asks) == m,
{
    let all = m.bids + m.asks;
    lemma_rebuild_prefix(m, all.len() as int);
    assert(all.take(all.len() as int) =~= all);
    if m.asks.len() == 0 {
        assert(m.bids.take(m.bids.len() as int) =~= m.bids);
        assert(m.asks =~= Seq::empty());
    } else {
        assert(m.asks.take(m.asks.len() as int) =~= m.asks);
    }
}

} // verus!
