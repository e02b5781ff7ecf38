use vstd::prelude::*;

use crate::order::Order;

verus! {

/// Whether `a` may stand before `b` on one side of the book: a better price
/// first (higher for bids, lower for asks), then a smaller minimum fill size.
pub open spec fn key_le(a: Order, b: Order, bid_side: bool) -> bool {
    if a.price == b.price {
        a.cluster_size <= b.cluster_size
    } else if bid_side {
        a.price > b.price
    } else {
        a.price < b.price
    }
}

/// Whether `a` and `b` rest in the same bucket: same price, same minimum fill size.
pub open spec fn same_bucket(a: Order, b: Order) -> bool {
    a.price == b.price && a.cluster_size == b.cluster_size
}

/// A well-formed side: best-first order, every order belongs to this side,
/// and no exhausted order rests.
pub open spec fn side_wf(s: Seq<Order>, bid_side: bool) -> bool {
    &&& forall|i: int, j: int| 0 <= i < j < s.len() ==> key_le(s[i], s[j], bid_side)
    &&& forall|i: int| 0 <= i < s.len() ==> s[i].is_buy == bid_side && s[i].quantity > 0
}

/// `s` with `o` placed after every order that may stand before it, so that it
/// joins the end of its bucket.
pub open spec fn insert_sorted(s: Seq<Order>, o: Order, bid_side: bool) -> Seq<Order>
    decreases s.len(),
{
    if s.len() == 0 {
        seq![o]
    } else if key_le(s.last(), o, bid_side) {
        s.push(o)
    } else {
        insert_sorted(s.drop_last(), o, bid_side).push(s.last())
    }
}

/// Whether a resting order's price is acceptable to the incoming order's limit.
pub open spec fn crosses(resting: Order, incoming: Order) -> bool {
    if incoming.is_buy {
        resting.price <= incoming.price
    } else {
        resting.price >= incoming.price
    }
}

/// Whether a resting order may be matched against the incoming order.
pub open spec fn eligible(resting: Order, incoming: Order) -> bool {
    crosses(resting, incoming) && resting.cluster_size <= incoming.quantity
}

/// Whether `k` is the first position of `s` holding an eligible order.
pub open spec fn is_first_eligible(s: Seq<Order>, incoming: Order, k: int) -> bool {
    &&& 0 <= k < s.len()
    &&& eligible(s[k], incoming)
    &&& forall|j: int| 0 <= j < k ==> !eligible(s[j], incoming)
}

/// Whether some order of `s` is eligible against `incoming`.
pub open spec fn has_eligible(s: Seq<Order>, incoming: Order) -> bool {
    exists|k: int| 0 <= k < s.len() && eligible(s[k], incoming)
}

/// The position of the order that a match selects on a best-first side.
pub open spec fn first_eligible(s: Seq<Order>, incoming: Order) -> int {
    choose|k: int| is_first_eligible(s, incoming, k)
}

/// The quantity executed: the incoming quantity, capped at what rests.
pub open spec fn fill_quantity(resting: Order, incoming: Order) -> u64 {
    if incoming.quantity <= resting.quantity {
        incoming.quantity
    } else {
        resting.quantity
    }
}

/// The fill record: the resting order's identity and price, the executed quantity.
pub open spec fn fill_of(resting: Order, incoming: Order) -> Order {
    Order {
        id: resting.id,
        is_buy: resting.is_buy,
        price: resting.price,
        quantity: fill_quantity(resting, incoming),
        cluster_size: resting.cluster_size,
    }
}

/// The side after the order at `k` has been filled: removed when exhausted,
/// else left in place with its quantity reduced.
pub open spec fn after_fill(s: Seq<Order>, k: int, incoming: Order) -> Seq<Order> {
    if s[k].quantity <= incoming.quantity {
        s.remove(k)
    } else {
        s.update(
            k,
            Order {
                id: s[k].id,
                is_buy: s[k].is_buy,
                price: s[k].price,
                quantity: (s[k].quantity - incoming.quantity) as u64,
                cluster_size: s[k].cluster_size,
            },
        )
    }
}

/// The two sides of a book, each in best-first order.
pub struct BookModel {
    pub bids: Seq<Order>,
    pub asks: Seq<Order>,
}

/// Both sides well formed.
pub open spec fn model_wf(m: BookModel) -> bool {
    side_wf(m.bids, true) && side_wf(m.asks, false)
}

/// A book with no resting orders.
pub open spec fn empty_model() -> BookModel {
    BookModel { bids: Seq::empty(), asks: Seq::empty() }
}

/// The book after `add_order(o)`: an order with quantity left joins the end
/// of its bucket on its own side; one with nothing left does not rest.
pub open spec fn add_spec(m: BookModel, o: Order) -> BookModel {
    if o.quantity == 0 {
        m
    } else if o.is_buy {
        BookModel { bids: insert_sorted(m.bids, o, true), asks: m.asks }
    } else {
        BookModel { bids: m.bids, asks: insert_sorted(m.asks, o, false) }
    }
}

/// The side an incoming order is matched against.
pub open spec fn opposite(m: BookModel, incoming: Order) -> Seq<Order> {
    if incoming.is_buy {
        m.asks
    } else {
        m.bids
    }
}

/// What `match_order(incoming)` returns.
pub open spec fn match_fill(m: BookModel, incoming: Order) -> Option<Order> {
    let s = opposite(m, incoming);
    if has_eligible(s, incoming) {
        Some(fill_of(s[first_eligible(s, incoming)], incoming))
    } else {
        None
    }
}

/// The book after `match_order(incoming)`.
pub open spec fn match_book(m: BookModel, incoming: Order) -> BookModel {
    let s = opposite(m, incoming);
    if !has_eligible(s, incoming) {
        m
    } else if incoming.is_buy {
        BookModel { bids: m.bids, asks: after_fill(s, first_eligible(s, incoming), incoming) }
    } else {
        BookModel { bids: after_fill(s, first_eligible(s, incoming), incoming), asks: m.asks }
    }
}

/// The book that adding the orders of `s` one by one, in order, to an empty
/// book produces.
pub open spec fn rebuild(s: Seq<Order>) -> BookModel
    decreases s.len(),
{
    if s.len() == 0 {
        empty_model()
    } else {
        add_spec(rebuild(s.drop_last()), s.last())
    }
}

/// A two-sided limit-order book.
pub struct OrderBook {
    bids: Vec<Order>,
    asks: Vec<Order>,
}

impl View for OrderBook {
    type V = BookModel;

    closed spec fn view(&self) -> BookModel {
        BookModel { bids: self.bids@, asks: self.asks@ }
    }
}

/// Computes `key_le`.
fn precedes(a: &Order, b: &Order, bid_side: bool) -> (r: bool)
    ensures
        r == key_le(*a, *b, bid_side),
{
    if a.price == b.price {
        a.cluster_size <= b.cluster_size
    } else if bid_side {
        a.price > b.price
    } else {
        a.price < b.price
    }
}

proof fn lemma_insert_sorted_at(s: Seq<Order>, o: Order, bid_side: bool, p: int)
    requires
        0 <= p <= s.len(),
        forall|i: int| 0 <= i < p ==> key_le(s[i], o, bid_side),
        forall|i: int| p <= i < s.len() ==> !key_le(s[i], o, bid_side),
    ensures
        insert_sorted(s, o, bid_side) == s.insert(p, o),
    decreases s.len(),
{
    if s.len() == 0 {
        assert(s.insert(p, o) =~= seq![o]);
    } else if p == s.len() {
        assert(s.insert(p, o) =~= s.push(o));
    } else {
        let t = s.drop_last();
        lemma_insert_sorted_at(t, o, bid_side, p);
        assert(s.insert(p, o) =~= t.insert(p, o).push(s.last()));
    }
}

/// The position at which `o` joins a well-formed side.
fn insert_position(side: &Vec<Order>, o: &Order, bid_side: bool) -> (p: usize)
    requires
        side_wf(side@, bid_side),
    ensures
        p <= side@.len(),
        forall|i: int| 0 <= i < p ==> key_le(side@[i], *o, bid_side),
        forall|i: int| p <= i < side@.len() ==> !key_le(side@[i], *o, bid_side),
{
    let mut p: usize = side.len();
    while p > 0
        invariant
            p <= side@.len(),
            side_wf(side@, bid_side),
            forall|i: int| p <= i < side@.len() ==> !key_le(side@[i], *o, bid_side),
        decreases p,
    {
        if precedes(&side[p - 1], o, bid_side) {
            assert forall|i: int| 0 <= i < p implies key_le(side@[i], *o, bid_side) by {
                if i < p - 1 {
                    assert(key_le(side@[i], side@[p - 1], bid_side));
                }
            }
            return p;
        }
        p = p - 1;
    }
    p
}

fn insert_side(side: &mut Vec<Order>, o: Order, bid_side: bool)
    requires
        side_wf(old(side)@, bid_side),
        o.is_buy == bid_side,
        o.quantity > 0,
    ensures
        final(side)@ == insert_sorted(old(side)@, o, bid_side),
        side_wf(final(side)@, bid_side),
{
    let p = insert_position(side, &o, bid_side);
    proof {
        lemma_insert_sorted_at(side@, o, bid_side, p as int);
    }
    side.insert(p, o);
}

proof fn lemma_first_eligible(s: Seq<Order>, incoming: Order, k: int)
    requires
        is_first_eligible(s, incoming, k),
    ensures
        has_eligible(s, incoming),
        first_eligible(s, incoming) == k,
{
    let c = first_eligible(s, incoming);
    assert(is_first_eligible(s, incoming, c));
    if c < k {
        assert(!eligible(s[c], incoming));
    } else if c > k {
        assert(!eligible(s[k], incoming));
    }
}

/// The position of the first eligible order of a best-first side, if any.
/// The scan stops at the first order whose price does not cross.
fn find_first_eligible(side: &Vec<Order>, incoming: &Order) -> (r: Option<usize>)
    requires
        side_wf(side@, !incoming.is_buy),
    ensures
        r matches Some(k) ==> is_first_eligible(side@, *incoming, k as int),
        r is None ==> !has_eligible(side@, *incoming),
{
    let n = side.len();
    let mut k: usize = 0;
    while k < n
        invariant
            n == side@.len(),
            k <= n,
            side_wf(side@, !incoming.is_buy),
            forall|j: int| 0 <= j < k ==> !eligible(side@[j], *incoming),
        decreases n - k,
    {
        let r = &side[k];
        let crosses = if incoming.is_buy {
            r.price <= incoming.price
        } else {
            r.price >= incoming.price
        };
        if !crosses {
            assert forall|j: int| 0 <= j < n implies !eligible(side@[j], *incoming) by {
                if j > k {
                    assert(key_le(side@[k as int], side@[j], !incoming.is_buy));
                }
            }
            return None;
        }
        if r.cluster_size <= incoming.quantity {
            return Some(k);
        }
        k = k + 1;
    }
    None
}

pub(crate) proof fn lemma_after_fill_wf(s: Seq<Order>, k: int, incoming: Order, bid_side: bool)
    requires
        side_wf(s, bid_side),
        0 <= k < s.len(),
    ensures
        side_wf(after_fill(s, k, incoming), bid_side),
{
    let t = after_fill(s, k, incoming);
    if s[k].quantity <= incoming.quantity {
        assert forall|i: int, j: int| 0 <= i < j < t.len() implies key_le(t[i], t[j], bid_side) by {
            let i0 = if i < k { i } else { i + 1 };
            let j0 = if j < k { j } else { j + 1 };
            assert(t[i] == s[i0] && t[j] == s[j0]);
        }
        assert forall|i: int| 0 <= i < t.len() implies t[i].is_buy == bid_side && t[i].quantity > 0 by {
            let i0 = if i < k { i } else { i + 1 };
            assert(t[i] == s[i0]);
        }
    } else {
        assert forall|i: int, j: int| 0 <= i < j < t.len() implies key_le(t[i], t[j], bid_side) by {
            assert(key_le(s[i], s[j], bid_side));
        }
    }
}

/// Fills `incoming` against the first eligible order of a best-first side.
fn match_side(side: &mut Vec<Order>, incoming: &Order) -> (r: Option<Order>)
    requires
        side_wf(old(side)@, !incoming.is_buy),
    ensures
        side_wf(final(side)@, !incoming.is_buy),
        has_eligible(old(side)@, *incoming) ==> {
            let k = first_eligible(old(side)@, *incoming);
            &&& r == Some(fill_of(old(side)@[k], *incoming))
            &&& final(side)@ == after_fill(old(side)@, k, *incoming)
        },
        !has_eligible(old(side)@, *incoming) ==> r is None && final(side)@ == old(side)@,
{
    match find_first_eligible(side, incoming) {
        None => None,
        Some(k) => {
            proof {
                lemma_first_eligible(side@, *incoming, k as int);
                lemma_after_fill_wf(side@, k as int, *incoming, !incoming.is_buy);
            }
            let resting = side[k];
            let fill = if incoming.quantity <= resting.quantity {
                incoming.quantity
            } else {
                resting.quantity
            };
            if resting.quantity <= incoming.quantity {
                side.remove(k);
            } else {
                side.set(
                    k,
                    Order {
                        id: resting.id,
                        is_buy: resting.is_buy,
                        price: resting.price,
                        quantity: resting.quantity - incoming.quantity,
                        cluster_size: resting.cluster_size,
                    },
                );
            }
            Some(
                Order {
                    id: resting.id,
                    is_buy: resting.is_buy,
                    price: resting.price,
                    quantity: fill,
                    cluster_size: resting.cluster_size,
                },
            )
        },
    }
}

impl OrderBook {
    /// Both sides in best-first order, each holding only its own side's
    /// orders, none of them exhausted.
    pub open spec fn wf(&self) -> bool {
        model_wf(self@)
    }

    /// Creates an empty book.
    pub fn new() -> (r: Self)
        ensures
            r.wf(),
            r@ == empty_model(),
    {
        OrderBook { bids: Vec::new(), asks: Vec::new() }
    }

    /// Rests `order` at the end of its bucket on its own side. It never
    /// matches, and returns nothing. An order with no quantity does not rest.
    pub fn add_order(&mut self, order: Order) -> (r: Option<Order>)
        requires
            old(self).wf(),
        ensures
            final(self).wf(),
            final(self)@ == add_spec(old(self)@, order),
            r is None,
    {
        if order.quantity == 0 {
            return None;
        }
        if order.is_buy {
            insert_side(&mut self.bids, order, true);
        } else {
            insert_side(&mut self.asks, order, false);
        }
        None
    }

    /// Fills `incoming` against the best eligible resting order of the
    /// opposite side: best price first, then smallest minimum fill size, then
    /// earliest arrival. The executed quantity is the incoming quantity capped
    /// at what rests; an order left with nothing is removed. The incoming
    /// order itself never rests.
    pub fn match_order(&mut self, incoming: Order) -> (r: Option<Order>)
        requires
            old(self).wf(),
        ensures
            final(self).wf(),
            final(self)@ == match_book(old(self)@, incoming),
            r == match_fill(old(self)@, incoming),
    {
        if incoming.is_buy {
            match_side(&mut self.asks, &incoming)
        } else {
            match_side(&mut self.bids, &incoming)
        }
    }

    /// The book that adding `orders` one by one, in order, to an empty book
    /// produces.
    pub fn from_orders(orders: &Vec<Order>) -> (r: Self)
        ensures
            r.wf(),
            r@ == rebuild(orders@),
    {
        let mut book = OrderBook::new();
        let n = orders.len();
        let mut i: usize = 0;
        while i < n
            invariant
                n == orders@.len(),
                i <= n,
                book.wf(),
                book@ == rebuild(orders@.take(i as int)),
            decreases n - i,
        {
            proof {
                assert(orders@.take(i + 1).drop_last() =~= orders@.take(i as int));
            }
            book.add_order(orders[i]);
            i = i + 1;
        }
        proof {
            assert(orders@.take(n as int) =~= orders@);
        }
        book
    }

    /// Every resting order in display order: bids best-first, then asks
    /// best-first; within a price level by bucket, within a bucket by arrival.
    pub fn view_orders(&self) -> (r: Vec<Order>)
        ensures
            r@ == self@.bids + self@.asks,
    {
        let mut r = self.bids.clone();
        let mut tail = self.asks.clone();
        r.append(&mut tail);
        r
    }
}

} // verus!
