use orderbook::price::{price_bits, price_key};
use orderbook::{Order, OrderBook};

fn key(p: f64) -> u64 {
    price_key(p.to_bits())
}

fn buy(id: u64, price: f64, quantity: u64, min_fill: u64) -> Order {
    Order::new(id, true, key(price), quantity, min_fill)
}

fn sell(id: u64, price: f64, quantity: u64, min_fill: u64) -> Order {
    Order::new(id, false, key(price), quantity, min_fill)
}

fn ids(book: &OrderBook) -> Vec<(u64, u64)> {
    book.view_orders().iter().map(|o| (o.id, o.quantity)).collect()
}

#[test]
fn add_then_sell_match_removes_level() {
    let mut book = OrderBook::new();
    assert_eq!(book.add_order(buy(1, 10.0, 5, 1)), None);
    let orders = book.view_orders();
    assert_eq!(orders, vec![buy(1, 10.0, 5, 1)]);
    let fill = book.match_order(sell(9, 10.0, 5, 1));
    assert_eq!(fill, Some(Order::new(1, true, key(10.0), 5, 1)));
    assert!(book.view_orders().is_empty());
}

#[test]
fn min_fill_floor_skips_ineligible_order() {
    let mut book = OrderBook::new();
    book.add_order(sell(2, 9.0, 10, 6));
    book.add_order(sell(3, 9.5, 10, 1));
    let fill = book.match_order(buy(0, 9.5, 3, 1));
    assert_eq!(fill, Some(Order::new(3, false, key(9.5), 3, 1)));
    assert_eq!(ids(&book), vec![(2, 10), (3, 7)]);
}

#[test]
fn no_crossing_price_leaves_book_unchanged() {
    let mut book = OrderBook::new();
    book.add_order(sell(2, 9.0, 10, 1));
    book.add_order(sell(3, 9.5, 10, 1));
    let before = book.view_orders();
    assert_eq!(book.match_order(buy(0, 8.0, 3, 1)), None);
    assert_eq!(book.view_orders(), before);
}

#[test]
fn repeated_matches_drain_order_and_level() {
    let mut book = OrderBook::new();
    book.add_order(sell(4, 9.0, 6, 1));
    book.add_order(sell(5, 9.5, 6, 1));
    assert_eq!(book.match_order(buy(0, 9.0, 4, 1)), Some(Order::new(4, false, key(9.0), 4, 1)));
    assert_eq!(ids(&book), vec![(4, 2), (5, 6)]);
    assert_eq!(book.match_order(buy(0, 9.0, 2, 1)), Some(Order::new(4, false, key(9.0), 2, 1)));
    assert_eq!(ids(&book), vec![(5, 6)]);
    assert_eq!(book.match_order(buy(0, 9.0, 2, 1)), None);
}

#[test]
fn buy_selects_cheapest_eligible_ask() {
    let mut book = OrderBook::new();
    book.add_order(sell(1, 11.0, 10, 1));
    book.add_order(sell(2, 10.0, 10, 1));
    book.add_order(sell(3, 10.5, 10, 1));
    let fill = book.match_order(buy(0, 12.0, 4, 1)).unwrap();
    assert_eq!(fill.id, 2);
    assert_eq!(fill.price, key(10.0));
}

#[test]
fn sell_selects_highest_eligible_bid() {
    let mut book = OrderBook::new();
    book.add_order(buy(1, 9.0, 10, 1));
    book.add_order(buy(2, 10.0, 10, 1));
    book.add_order(buy(3, 9.5, 10, 1));
    assert_eq!(ids(&book), vec![(2, 10), (3, 10), (1, 10)]);
    let fill = book.match_order(sell(0, 9.2, 4, 1)).unwrap();
    assert_eq!(fill.id, 2);
    assert_eq!(book.match_order(sell(0, 10.5, 4, 1)), None);
}

#[test]
fn ineligible_size_at_better_price_is_skipped() {
    let mut book = OrderBook::new();
    book.add_order(buy(1, 10.0, 10, 8));
    book.add_order(buy(2, 9.0, 10, 2));
    let fill = book.match_order(sell(0, 9.0, 5, 1)).unwrap();
    assert_eq!(fill.id, 2);
    assert_eq!(book.match_order(sell(0, 9.5, 5, 1)), None);
}

#[test]
fn earliest_order_of_bucket_matches_first() {
    let mut book = OrderBook::new();
    book.add_order(sell(1, 10.0, 5, 2));
    book.add_order(sell(2, 10.0, 5, 2));
    book.add_order(sell(3, 10.0, 5, 2));
    assert_eq!(book.match_order(buy(0, 10.0, 5, 1)).unwrap().id, 1);
    assert_eq!(book.match_order(buy(0, 10.0, 5, 1)).unwrap().id, 2);
    assert_eq!(book.match_order(buy(0, 10.0, 5, 1)).unwrap().id, 3);
    assert!(book.view_orders().is_empty());
}

#[test]
fn smaller_min_fill_bucket_comes_first_in_a_level() {
    let mut book = OrderBook::new();
    book.add_order(sell(1, 10.0, 5, 4));
    book.add_order(sell(2, 10.0, 5, 1));
    assert_eq!(ids(&book), vec![(2, 5), (1, 5)]);
    assert_eq!(book.match_order(buy(0, 10.0, 5, 1)).unwrap().id, 2);
    assert_eq!(book.match_order(buy(0, 10.0, 3, 1)), None);
    assert_eq!(book.match_order(buy(0, 10.0, 4, 1)).unwrap().id, 1);
}

#[test]
fn match_does_not_rest_incoming_order() {
    let mut book = OrderBook::new();
    book.add_order(sell(1, 10.0, 10, 1));
    book.match_order(buy(7, 10.0, 3, 1));
    assert_eq!(ids(&book), vec![(1, 7)]);
    assert_eq!(book.match_order(buy(8, 9.0, 3, 1)), None);
    assert_eq!(ids(&book), vec![(1, 7)]);
}

#[test]
fn rebuilding_from_enumeration_gives_same_book() {
    let mut book = OrderBook::new();
    book.add_order(buy(1, 10.0, 5, 1));
    book.add_order(buy(2, 10.0, 6, 3));
    book.add_order(buy(3, 9.0, 7, 1));
    book.add_order(buy(4, 10.0, 8, 1));
    book.add_order(sell(5, 11.0, 9, 2));
    book.add_order(sell(6, 10.5, 1, 1));
    let orders = book.view_orders();
    let copy = OrderBook::from_orders(&orders);
    assert_eq!(copy.view_orders(), orders);
    assert_eq!(ids(&book), vec![(1, 5), (4, 8), (2, 6), (3, 7), (6, 1), (5, 9)]);
}

#[test]
fn fill_is_capped_at_resting_quantity() {
    let mut book = OrderBook::new();
    book.add_order(sell(1, 10.0, 3, 1));
    book.add_order(sell(2, 10.0, 4, 1));
    let fill = book.match_order(buy(0, 10.0, 5, 1)).unwrap();
    assert_eq!((fill.id, fill.quantity), (1, 3));
    assert_eq!(ids(&book), vec![(2, 4)]);
}

#[test]
fn order_without_quantity_does_not_rest() {
    let mut book = OrderBook::new();
    assert_eq!(book.add_order(buy(1, 10.0, 0, 1)), None);
    assert!(book.view_orders().is_empty());
}

#[test]
fn order_new_keeps_fields() {
    let o = Order::new(7, true, 42, 5, 2);
    assert_eq!((o.id, o.is_buy, o.price, o.quantity, o.cluster_size), (7, true, 42, 5, 2));
}

#[test]
fn price_keys_order_like_prices() {
    let prices = [-1.0e9, -2.5, -0.5, 0.0, 0.25, 9.5, 10.0, 1.0e12];
    for w in prices.windows(2) {
        assert!(key(w[0]) < key(w[1]));
    }
    assert_eq!(key(0.0), 0x8000_0000_0000_0000);
    assert_eq!(key(-0.0), 0x7fff_ffff_ffff_ffff);
    for p in prices {
        assert_eq!(f64::from_bits(price_bits(key(p))), p);
    }
}
