use orderbook_rs::{Order, PriceLevel, PriceLevels, Side};

#[test]
fn insert_remove() {
    let o = Order::new(10, 1, 0, Side::Buy);
    let mut pl = PriceLevel::default();
    assert_eq!(pl.size, 0);
    pl.add(o);
    assert_eq!(pl.size, o.size);
    pl.remove(&o.id);
    assert_eq!(pl.size, 0);

    // Removes again.
    pl.remove(&o.id);
}

#[test]
fn insert_twice() {
    let o1 = Order::new(10, 1, 0, Side::Buy);
    let o2 = Order::new(10, 2, 1, Side::Buy);
    let mut pl = PriceLevel::default();
    pl.add(o1);
    pl.add(o2);
    assert_eq!(pl.size, o1.size + o2.size);
}

#[test]
fn insert_remove_many_times() {
    let mut pl = PriceLevel::default();
    for i in 1..10 {
        pl.add(Order::new(10, 1, i, Side::Buy));
    }
    for i in 1..10 {
        pl.remove(&i);
    }
}

#[test]
fn remove_keeps_arrival_order() {
    let mut pl = PriceLevel::default();
    for i in 0..4 {
        pl.add(Order::new(10, (i + 1) as u64, i, Side::Sell));
    }
    pl.remove(&1);
    let ids: Vec<i64> = pl.orders.iter().map(|o| o.id).collect();
    assert_eq!(ids, vec![0, 2, 3]);
    assert_eq!(pl.size, 1 + 3 + 4);
    assert_eq!(pl.price(), Some(10));
    assert!(!pl.is_empty());
}

#[test]
fn empty_level_has_no_price() {
    let pl = PriceLevel::default();
    assert!(pl.is_empty());
    assert_eq!(pl.price(), None);
}

#[test]
fn set_size_adjusts_total() {
    let mut pl = PriceLevel::default();
    pl.add(Order::new(7, 4, 0, Side::Buy));
    pl.add(Order::new(7, 6, 1, Side::Buy));
    pl.set_size(0, 1);
    assert_eq!(pl.size, 7);
    assert_eq!(pl.orders[0].size, 1);
    assert_eq!(pl.orders[0].id, 0);
    assert_eq!(pl.position(1), Some(1));
    assert_eq!(pl.position(5), None);
}

#[test]
fn insert_ask() {
    let o1 = Order::new(10, 1, 0, Side::Buy);
    let mut pls = PriceLevels::new(true);
    pls.insert(o1);
    assert_eq!(pls.best_price().unwrap(), 10);
    let o2 = Order::new(9, 2, 1, Side::Buy);
    pls.insert(o2);
    assert_eq!(pls.best_price().unwrap(), 9);
}

#[test]
fn insert_bid() {
    let o1 = Order::new(9, 1, 0, Side::Buy);
    let o2 = Order::new(10, 1, 1, Side::Buy);
    let mut pls = PriceLevels::new(false);
    pls.insert(o1);
    pls.insert(o2);
    assert_eq!(pls.best_price().unwrap(), 10);
}

#[test]
fn levels_stay_in_price_order() {
    let mut pls = PriceLevels::new(true);
    pls.insert(Order::new(12, 1, 0, Side::Sell));
    pls.insert(Order::new(10, 2, 1, Side::Sell));
    pls.insert(Order::new(11, 3, 2, Side::Sell));
    pls.insert(Order::new(10, 4, 3, Side::Sell));
    let prices: Vec<Option<u64>> = pls.levels.iter().map(|l| l.price()).collect();
    assert_eq!(prices, vec![Some(10), Some(11), Some(12)]);
    let best = pls.best_level().unwrap();
    assert_eq!(best.size, 6);
    assert_eq!(best.orders[1].id, 3);
}

#[test]
fn removing_last_order_drops_level() {
    let mut pls = PriceLevels::new(false);
    pls.insert(Order::new(9, 1, 0, Side::Buy));
    pls.insert(Order::new(10, 2, 1, Side::Buy));
    assert!(pls.contains(&1));
    pls.remove_order(&1);
    assert!(!pls.contains(&1));
    assert_eq!(pls.levels.len(), 1);
    assert_eq!(pls.best_price(), Some(9));
    pls.remove_order(&0);
    assert!(pls.levels.is_empty());
    assert_eq!(pls.best_price(), None);
    assert!(pls.best_level().is_none());
}

#[test]
fn update_order_keeps_place() {
    let mut pls = PriceLevels::new(true);
    pls.insert(Order::new(5, 1, 0, Side::Sell));
    pls.insert(Order::new(5, 2, 1, Side::Sell));
    pls.insert(Order::new(5, 3, 2, Side::Sell));
    pls.update_order(&1, 10);
    let l = pls.best_level().unwrap();
    let ids: Vec<i64> = l.orders.iter().map(|o| o.id).collect();
    assert_eq!(ids, vec![0, 1, 2]);
    assert_eq!(l.orders[1].size, 10);
    assert_eq!(l.size, 14);
}

#[test]
fn many_levels_inserted_out_of_order() {
    let mut bids = PriceLevels::new(false);
    let prices: [u64; 9] = [50, 10, 90, 30, 70, 20, 80, 60, 40];
    for (i, p) in prices.iter().enumerate() {
        bids.insert(Order::new(*p, 1, i as i64, Side::Buy));
    }
    bids.insert(Order::new(30, 2, 100, Side::Buy));
    let got: Vec<Option<u64>> = bids.levels.iter().map(|l| l.price()).collect();
    assert_eq!(
        got,
        vec![Some(90), Some(80), Some(70), Some(60), Some(50), Some(40), Some(30), Some(20), Some(10)]
    );
    assert_eq!(bids.levels[6].size, 3);
    assert_eq!(bids.best_price(), Some(90));
}
