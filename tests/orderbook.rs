use orderbook_rs::{aggressive, apply_fills, match_order, Order, OrderBook, PriceLevels, Side};

#[test]
fn place() {
    // Places a buy order
    let o = Order::new(9, 1, 0, Side::Buy);
    let mut ob = OrderBook::new();
    ob.place(&o);
    assert_eq!(ob.bid().unwrap().price().unwrap(), 9);
    assert_eq!(ob.bid().unwrap().size, 1);

    // Places an order that matches and inserts a sell order.
    let o2 = Order::new(9, 3, 0, Side::Sell);
    let mo = ob.place(&o2);
    assert_eq!(mo.matches.len(), 1);
    assert_eq!(ob.ask().unwrap().price().unwrap(), 9);
    assert_eq!(ob.ask().unwrap().size, 2);
}

#[test]
fn place_double_match() {
    let mut ob = OrderBook::new();
    // Places a buy order
    ob.place(&Order::new(9, 1, 0, Side::Buy));
    ob.place(&Order::new(10, 2, 1, Side::Buy));
    // Places an order that matches
    let mo = ob.place(&Order::new(9, 3, 2, Side::Sell));
    assert_eq!(mo.matches.len(), 2);
    assert_eq!(mo.total_size(), 3);
}

#[test]
fn cancel() {
    let mut ob = OrderBook::new();
    let o = Order::new(9, 1, 0, Side::Buy);
    ob.place(&o);

    let o = Order::new(10, 2, 1, Side::Buy);
    ob.place(&o);

    ob.cancel(&1);
    assert_eq!(ob.bid().unwrap().price().unwrap(), 9);
    assert_eq!(ob.bid().unwrap().size, 1);
}

#[test]
fn update() {
    let mut ob = OrderBook::new();
    let o = Order::new(9, 1, 0, Side::Buy);
    ob.place(&o);
    ob.update(&0, 2);
    assert_eq!(ob.bid().unwrap().size, 2);
}

#[test]
fn empty_book_has_no_best() {
    let ob = OrderBook::new();
    assert!(ob.bid().is_none());
    assert!(ob.ask().is_none());
    assert_eq!(ob.best_bid(), None);
    assert_eq!(ob.best_ask(), None);
}

#[test]
fn same_price_fills_first_arrival_only() {
    let mut ob = OrderBook::new();
    ob.place(&Order::new(10, 5, 1, Side::Buy));
    ob.place(&Order::new(10, 5, 2, Side::Buy));
    let mo = ob.place(&Order::new(10, 3, 3, Side::Sell));
    assert_eq!(mo.matches.len(), 1);
    assert_eq!(mo.matches[0].order.id, 1);
    assert_eq!(mo.matches[0].size, 3);
    assert_eq!(mo.order.size, 0);
    let ids: Vec<(i64, u64)> = ob.bid().unwrap().orders.iter().map(|o| (o.id, o.size)).collect();
    assert_eq!(ids, vec![(1, 2), (2, 5)]);
    assert_eq!(ob.best_bid(), Some((10, 7)));
}

#[test]
fn best_bid_level_is_matched_first() {
    let mut ob = OrderBook::new();
    ob.place(&Order::new(8, 4, 1, Side::Buy));
    ob.place(&Order::new(10, 4, 2, Side::Buy));
    let mo = ob.place(&Order::new(9, 6, 3, Side::Sell));
    assert_eq!(mo.matches.len(), 1);
    assert_eq!(mo.matches[0].order.id, 2);
    assert_eq!(mo.matches[0].size, 4);
    assert_eq!(mo.order.size, 2);
    assert_eq!(ob.best_bid(), Some((8, 4)));
    assert_eq!(ob.best_ask(), Some((9, 2)));
}

#[test]
fn full_then_partial_fill() {
    let mut ob = OrderBook::new();
    ob.place(&Order::new(9, 1, 1, Side::Sell));
    ob.place(&Order::new(9, 5, 2, Side::Sell));
    let mo = ob.place(&Order::new(9, 3, 3, Side::Buy));
    assert_eq!(mo.matches.len(), 2);
    assert_eq!((mo.matches[0].order.id, mo.matches[0].size), (1, 1));
    assert_eq!((mo.matches[1].order.id, mo.matches[1].size), (2, 2));
    assert_eq!(mo.matches[1].order.size, 5);
    assert_eq!(mo.order.size, 0);
    assert_eq!(mo.total_size(), 3);
    let ask = ob.ask().unwrap();
    assert_eq!(ask.orders.len(), 1);
    assert_eq!((ask.orders[0].id, ask.orders[0].size), (2, 3));
    assert_eq!(ask.size, 3);
    assert!(ob.bid().is_none());
}

#[test]
fn filled_order_does_not_rest() {
    let mut ob = OrderBook::new();
    ob.place(&Order::new(100, 4, 1, Side::Sell));
    ob.place(&Order::new(90, 2, 5, Side::Buy));
    let mo = ob.place(&Order::new(105, 4, 2, Side::Buy));
    assert_eq!(mo.order.size, 0);
    assert_eq!(ob.best_bid(), Some((90, 2)));
    assert_eq!(ob.best_ask(), None);
}

#[test]
fn cancel_twice_is_cancel_once() {
    let mut once = OrderBook::new();
    let mut twice = OrderBook::new();
    for ob in [&mut once, &mut twice] {
        ob.place(&Order::new(10, 1, 1, Side::Buy));
        ob.place(&Order::new(11, 2, 2, Side::Buy));
        ob.place(&Order::new(12, 3, 3, Side::Sell));
    }
    once.cancel(&2);
    twice.cancel(&2);
    twice.cancel(&2);
    assert_eq!(once.best_bid(), Some((10, 1)));
    assert_eq!(twice.best_bid(), once.best_bid());
    assert_eq!(twice.best_ask(), once.best_ask());
    assert_eq!(twice.bid_levels.levels.len(), once.bid_levels.levels.len());
}

#[test]
fn cancel_unknown_is_noop() {
    let mut ob = OrderBook::new();
    ob.place(&Order::new(10, 1, 1, Side::Sell));
    ob.cancel(&42);
    assert_eq!(ob.best_ask(), Some((10, 1)));
    ob.cancel(&1);
    assert_eq!(ob.best_ask(), None);
}

#[test]
fn update_keeps_match_order() {
    let mut ob = OrderBook::new();
    ob.place(&Order::new(10, 1, 1, Side::Buy));
    ob.place(&Order::new(10, 1, 2, Side::Buy));
    ob.update(&1, 4);
    assert_eq!(ob.best_bid(), Some((10, 5)));
    let mo = ob.place(&Order::new(10, 5, 3, Side::Sell));
    let ids: Vec<i64> = mo.matches.iter().map(|m| m.order.id).collect();
    assert_eq!(ids, vec![1, 2]);
    assert_eq!(mo.order.size, 0);
}

#[test]
fn update_to_zero_cancels_and_unknown_is_noop() {
    let mut ob = OrderBook::new();
    ob.place(&Order::new(20, 3, 1, Side::Sell));
    ob.place(&Order::new(21, 3, 2, Side::Sell));
    ob.update(&9, 7);
    assert_eq!(ob.best_ask(), Some((20, 3)));
    ob.update(&1, 0);
    assert_eq!(ob.best_ask(), Some((21, 3)));
}

#[test]
fn update_does_not_match() {
    let mut ob = OrderBook::new();
    ob.place(&Order::new(10, 1, 1, Side::Buy));
    ob.place(&Order::new(11, 1, 2, Side::Sell));
    ob.update(&1, 50);
    assert_eq!(ob.best_bid(), Some((10, 50)));
    assert_eq!(ob.best_ask(), Some((11, 1)));
}

#[test]
fn resting_order_round_trip() {
    let mut ob = OrderBook::new();
    ob.place(&Order::new(15, 2, 1, Side::Sell));
    let mo = ob.place(&Order::new(12, 7, 2, Side::Buy));
    assert!(mo.matches.is_empty());
    assert_eq!(mo.order.size, 7);
    assert_eq!(ob.bid_levels.best_price(), Some(12));
    assert_eq!(ob.best_bid(), Some((12, 7)));
    let mo = ob.place(&Order::new(16, 3, 3, Side::Sell));
    assert!(mo.matches.is_empty());
    assert_eq!(ob.ask_levels.best_price(), Some(15));
    assert_eq!(ob.best_ask(), Some((15, 2)));
}

#[test]
fn sell_sweeps_bids_from_highest() {
    let mut ob = OrderBook::new();
    ob.place(&Order::new(7, 1, 1, Side::Buy));
    ob.place(&Order::new(9, 1, 2, Side::Buy));
    ob.place(&Order::new(8, 1, 3, Side::Buy));
    let mo = ob.place(&Order::new(8, 5, 4, Side::Sell));
    let ids: Vec<i64> = mo.matches.iter().map(|m| m.order.id).collect();
    assert_eq!(ids, vec![2, 3]);
    assert_eq!(mo.order.size, 3);
    assert_eq!(ob.best_bid(), Some((7, 1)));
    assert_eq!(ob.best_ask(), Some((8, 3)));
}

#[test]
fn crossing_rule() {
    let buy = Order::new(10, 1, 1, Side::Buy);
    let sell = Order::new(10, 1, 2, Side::Sell);
    assert!(aggressive(&buy, &10));
    assert!(aggressive(&buy, &9));
    assert!(!aggressive(&buy, &11));
    assert!(aggressive(&sell, &10));
    assert!(aggressive(&sell, &11));
    assert!(!aggressive(&sell, &9));
}

fn resting_total(ob: &OrderBook) -> u64 {
    let mut total = 0;
    for side in [&ob.bid_levels, &ob.ask_levels] {
        for level in side.levels.iter() {
            let sum: u64 = level.orders.iter().map(|o| o.size).sum();
            assert_eq!(level.size, sum);
            assert!(!level.orders.is_empty());
            total += sum;
        }
    }
    total
}

#[test]
fn many_orders_keep_book_consistent() {
    let mut ob = OrderBook::new();
    let mut seed: u64 = 12345;
    let mut placed: u64 = 0;
    let mut filled: u64 = 0;
    for i in 0..2000 {
        seed = seed.wrapping_mul(6364136223846793005).wrapping_add(1442695040888963407);
        let price = 80 + (seed >> 33) % 40;
        let size = 1 + (seed >> 20) % 9;
        let side = if (seed >> 40) % 2 == 0 { Side::Buy } else { Side::Sell };
        let mo = ob.place(&Order::new(price, size, i, side));
        placed += size;
        filled += mo.total_size();
        assert_eq!(mo.total_size() + mo.order.size, size);
        if let (Some((bid, _)), Some((ask, _))) = (ob.best_bid(), ob.best_ask()) {
            assert!(bid < ask);
        }
        assert_eq!(resting_total(&ob), placed - 2 * filled);
    }
}

#[test]
fn contains_follows_resting_orders() {
    let mut ob = OrderBook::new();
    assert!(!ob.contains(&1));
    ob.place(&Order::new(10, 2, 1, Side::Buy));
    ob.place(&Order::new(12, 2, 2, Side::Sell));
    assert!(ob.contains(&1));
    assert!(ob.contains(&2));
    // Fills order 1 whole; the residual of order 3 rests on the ask side.
    let mo = ob.place(&Order::new(10, 5, 3, Side::Sell));
    assert_eq!(mo.matches.len(), 1);
    assert!(!ob.contains(&1));
    assert!(ob.contains(&3));
    assert_eq!(ob.best_ask(), Some((10, 3)));
    ob.cancel(&3);
    assert!(!ob.contains(&3));
    assert_eq!(ob.best_ask(), Some((12, 2)));
}

#[test]
fn match_order_only_reads_the_side() {
    let mut asks = PriceLevels::new(true);
    asks.insert(Order::new(9, 1, 1, Side::Sell));
    asks.insert(Order::new(9, 5, 2, Side::Sell));
    asks.insert(Order::new(11, 4, 3, Side::Sell));
    let mo = match_order(&Order::new(10, 3, 4, Side::Buy), &asks);
    let fills: Vec<(i64, u64)> = mo.matches.iter().map(|m| (m.order.id, m.size)).collect();
    assert_eq!(fills, vec![(1, 1), (2, 2)]);
    assert_eq!(mo.order.size, 0);
    let sizes: Vec<Vec<u64>> =
        asks.levels.iter().map(|l| l.orders.iter().map(|o| o.size).collect()).collect();
    assert_eq!(sizes, vec![vec![1, 5], vec![4]]);
    apply_fills(&Order::new(10, 3, 4, Side::Buy), &mut asks, &mo.matches);
    let sizes: Vec<Vec<u64>> =
        asks.levels.iter().map(|l| l.orders.iter().map(|o| o.size).collect()).collect();
    assert_eq!(sizes, vec![vec![3], vec![4]]);
    assert_eq!(asks.best_level().unwrap().size, 3);
}
