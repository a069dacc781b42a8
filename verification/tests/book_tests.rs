use kucoin_arbitrage::decimal::Dec;
use kucoin_arbitrage::func::OrderSide;
use kucoin_arbitrage::orderbook::{
    accept_update, best_levels_sound, remove_best, sort_asks, sort_bids, sort_by_price, Level, OrderBook,
};

fn level(price: i128, scale: u32, qty: i128) -> Level {
    Level { price: Dec { mantissa: price, scale }, qty: Dec { mantissa: qty, scale: 0 } }
}

fn prices(levels: &[Level]) -> Vec<(i128, u32)> {
    levels.iter().map(|l| (l.price.mantissa, l.price.scale)).collect()
}

fn qtys(levels: &[Level]) -> Vec<i128> {
    levels.iter().map(|l| l.qty.mantissa).collect()
}

#[test]
fn bids_go_from_the_highest_price() {
    let bids = vec![level(3, 0, 1), level(5, 0, 2), level(4, 0, 3), level(50, 1, 4)];
    let sorted = sort_bids(bids);
    assert_eq!(prices(&sorted), vec![(5, 0), (50, 1), (4, 0), (3, 0)]);
    // 5 and 5.0 are the same price: they keep their order
    assert_eq!(qtys(&sorted), vec![2, 4, 3, 1]);
}

#[test]
fn asks_go_from_the_lowest_price() {
    let asks = vec![level(7, 0, 1), level(2, 0, 2), level(20, 1, 3), level(9, 0, 4), level(1, 0, 5)];
    let sorted = sort_asks(asks);
    assert_eq!(prices(&sorted), vec![(1, 0), (2, 0), (20, 1), (7, 0), (9, 0)]);
    assert_eq!(qtys(&sorted), vec![5, 2, 3, 1, 4]);
}

#[test]
fn sorting_sorted_or_tiny_sides_changes_nothing() {
    assert!(sort_bids(vec![]).is_empty());
    assert_eq!(qtys(&sort_asks(vec![level(3, 0, 9)])), vec![9]);
    let asks = vec![level(1, 0, 1), level(2, 0, 2), level(2, 0, 3), level(3, 0, 4)];
    assert_eq!(qtys(&sort_asks(asks)), vec![1, 2, 3, 4]);
    let once = sort_bids(vec![level(1, 0, 1), level(3, 0, 2), level(2, 0, 3)]);
    let twice = sort_bids(once.clone());
    assert_eq!(qtys(&once), qtys(&twice));
}

#[test]
fn sort_by_price_orders_both_sides() {
    let book = OrderBook {
        last_update_id: 7,
        bids: vec![level(1, 0, 1), level(3, 0, 2)],
        asks: vec![level(6, 0, 3), level(4, 0, 4)],
    };
    let sorted = sort_by_price(book);
    assert_eq!(sorted.last_update_id, 7);
    assert_eq!(prices(&sorted.bids), vec![(3, 0), (1, 0)]);
    assert_eq!(prices(&sorted.asks), vec![(4, 0), (6, 0)]);
}

#[test]
fn only_newer_books_are_accepted() {
    let current = OrderBook { last_update_id: 10, bids: vec![], asks: vec![] };
    let stale = OrderBook { last_update_id: 10, bids: vec![level(1, 0, 1)], asks: vec![] };
    assert!(accept_update(&current, stale).is_none());
    let fresh = OrderBook { last_update_id: 11, bids: vec![level(1, 0, 1), level(2, 0, 2)], asks: vec![] };
    let accepted = accept_update(&current, fresh).unwrap();
    assert_eq!(accepted.last_update_id, 11);
    assert_eq!(prices(&accepted.bids), vec![(2, 0), (1, 0)]);
}

#[test]
fn remove_best_takes_the_traded_level() {
    let mut book = OrderBook {
        last_update_id: 1,
        bids: vec![level(5, 0, 1), level(4, 0, 2)],
        asks: vec![level(6, 0, 3), level(7, 0, 4)],
    };
    remove_best(&mut book, OrderSide::Buy);
    assert_eq!(prices(&book.asks), vec![(7, 0)]);
    assert_eq!(prices(&book.bids), vec![(5, 0), (4, 0)]);
    remove_best(&mut book, OrderSide::Sell);
    assert_eq!(prices(&book.bids), vec![(4, 0)]);
    assert_eq!(prices(&book.asks), vec![(7, 0)]);
}

#[test]
fn best_level_soundness() {
    let ok = OrderBook { last_update_id: 1, bids: vec![level(1, 0, 0), level(2, 0, -5)], asks: vec![] };
    assert!(best_levels_sound(&ok));
    let negative = OrderBook { last_update_id: 1, bids: vec![], asks: vec![level(1, 0, -1)] };
    assert!(best_levels_sound(&negative));
    let too_fine = OrderBook { last_update_id: 1, bids: vec![level(1, 29, 1)], asks: vec![] };
    assert!(!best_levels_sound(&too_fine));
}

#[test]
fn after_removing_the_best_the_side_stays_sorted() {
    let mut book = sort_by_price(OrderBook {
        last_update_id: 3,
        bids: vec![level(2, 0, 1), level(9, 0, 2), level(5, 0, 3)],
        asks: vec![],
    });
    remove_best(&mut book, OrderSide::Sell);
    assert_eq!(prices(&book.bids), vec![(5, 0), (2, 0)]);
    let again = sort_bids(book.bids.clone());
    assert_eq!(qtys(&again), qtys(&book.bids));
}
