use orderbook::hash;
use orderbook::Amount;
use orderbook::IdPriceCache;
use orderbook::IdPriceCacheFnvMap;
use orderbook::OrderBook;
use orderbook::OrderSide;

#[test]
fn orderbook_constructor_works() {
    let target_size = 500;
    let ob = OrderBook::new(target_size, IdPriceCacheFnvMap::default());
    assert_eq!(ob.bids_total_size, 0);
    assert_eq!(ob.asks_total_size, 0);
    assert_eq!(ob.target_size, target_size);
    assert_eq!(ob.last_action_timestamp, 0);
    assert_eq!(ob.last_action_side, OrderSide::Ask);
}

#[test]
fn orderbook_add_ask() {
    let target_size = 200;
    let mut ob = OrderBook::new(target_size, IdPriceCacheFnvMap::default());

    ob.process("28800538 A b S 44.26 100");
    assert_eq!(ob.asks_total_size, 100);
    assert_eq!(ob.bids_total_size, 0);
    assert_eq!(ob.summarise_target(), None);
    assert_eq!(ob.last_action_side, OrderSide::Ask);
    assert_eq!(ob.last_action_timestamp, 28800538);
    assert!(ob.cache.contains_key(&hash("b")));
    let price = Amount::new_from_str("44.26").unwrap();
    assert_eq!(ob.asks.binary_search_by_key(&price, |&(price, _size)| price), Ok(0));
}

#[test]
fn orderbook_add_bid() {
    let target_size = 200;
    let mut ob = OrderBook::new(target_size, IdPriceCacheFnvMap::default());

    ob.process("28800538 A b B 44.26 100");
    assert_eq!(ob.bids_total_size, 100);
    assert_eq!(ob.asks_total_size, 0);
    assert_eq!(ob.summarise_target(), None);
    assert_eq!(ob.last_action_side, OrderSide::Bid);
    assert_eq!(ob.last_action_timestamp, 28800538);
    assert!(ob.cache.contains_key(&hash("b")));
    let price = Amount::new_from_str("44.26").unwrap();
    let idx = ob.bids.binary_search_by_key(&price, |&(p, _s)| p);
    assert_eq!(idx, Ok(0));
}

#[test]
fn orderbook_reduce_ask() {
    let target_size = 200;
    let mut ob = OrderBook::new(target_size, IdPriceCacheFnvMap::default());
    ob.process("28800538 A b S 44.26 100");
    ob.process("28800744 R b 20");
    assert_eq!(ob.asks_total_size, 80);
    assert_eq!(ob.bids_total_size, 0);
    assert_eq!(ob.summarise_target(), None);
    assert_eq!(ob.last_action_side, OrderSide::Ask);
    assert_eq!(ob.last_action_timestamp, 28800744);
    assert!(ob.cache.contains_key(&hash("b")));
    let price = Amount::new_from_str("44.26").unwrap();
    assert_eq!(ob.asks.binary_search_by_key(&price, |&(price, _size)| price), Ok(0));
}

#[test]
fn orderbook_reduce_bid() {
    let target_size = 200;
    let mut ob = OrderBook::new(target_size, IdPriceCacheFnvMap::default());

    ob.process("28800538 A b B 44.26 100");
    ob.process("28800744 R b 20");
    assert_eq!(ob.bids_total_size, 80);
    assert_eq!(ob.asks_total_size, 0);
    assert_eq!(ob.last_action_side, OrderSide::Bid);
    assert_eq!(ob.last_action_timestamp, 28800744);
    assert_eq!(ob.summarise_target(), None);
    assert!(ob.cache.contains_key(&hash("b")));
    let price = Amount::new_from_str("44.26").unwrap();
    assert_eq!(ob.bids.binary_search_by_key(&price, |&(price, _size)| price), Ok(0));
}

#[test]
fn orderbook_add_reduce_add() {
    let target_size = 200;
    let mut ob = OrderBook::new(target_size, IdPriceCacheFnvMap::default());

    ob.process("28800538 A b B 44.26 100");
    ob.process("28800744 R b 20");
    ob.process("28800986 A c B 44.07 500");
    let ret = ob.summarise_target();
    assert_eq!(ob.bids_total_size, 580);
    assert_eq!(ob.asks_total_size, 0);
    assert_eq!(ob.last_action_side, OrderSide::Bid);
    assert_eq!(ob.last_action_timestamp, 28800986);
    assert!(ob.cache.contains_key(&hash("b")));
    assert!(ob.cache.contains_key(&hash("c")));
    assert_eq!(ret, Some(Amount::new_from_str("8829.20").unwrap()));
}

#[test]
fn run_through_basic() {
    let target_size = 200;
    let mut ob = OrderBook::new(target_size, IdPriceCacheFnvMap::default());
    ob.process("28800538 A b S 44.26 100");
    assert_eq!(ob.asks_total_size, 100);
    assert_eq!(ob.bids_total_size, 0);
    assert_eq!(ob.last_action_side, OrderSide::Ask);
    assert_eq!(ob.last_action_timestamp, 28800538);
    assert!(ob.cache.contains_key(&hash("b")));
    assert_eq!(ob.summarise_target(), None);

    ob.process("28800562 A c B 44.10 100");
    assert_eq!(ob.asks_total_size, 100);
    assert_eq!(ob.bids_total_size, 100);
    assert_eq!(ob.last_action_side, OrderSide::Bid);
    assert_eq!(ob.last_action_timestamp, 28800562);
    assert!(ob.cache.contains_key(&hash("b")));
    assert!(ob.cache.contains_key(&hash("c")));
    assert_eq!(ob.summarise_target(), None);

    ob.process("28800744 R b 100");
    assert_eq!(ob.asks_total_size, 0);
    assert_eq!(ob.bids_total_size, 100);
    assert_eq!(ob.last_action_side, OrderSide::Ask);
    assert_eq!(ob.last_action_timestamp, 28800744);
    assert!(ob.cache.contains_key(&hash("b")));
    assert!(ob.cache.contains_key(&hash("c")));
    assert_eq!(ob.summarise_target(), None);

    ob.process("28800758 A d B 44.18 157");
    assert_eq!(ob.asks_total_size, 0);
    assert_eq!(ob.bids_total_size, 257);
    assert_eq!(ob.last_action_side, OrderSide::Bid);
    assert_eq!(ob.last_action_timestamp, 28800758);
    assert!(ob.cache.contains_key(&hash("b")));
    assert!(ob.cache.contains_key(&hash("c")));
    assert!(ob.cache.contains_key(&hash("d")));
    assert_eq!(ob.summarise_target(), Some(Amount::new_from_str("8832.56").unwrap()));

    ob.process("28800796 R d 157");
}

#[test]
fn prices_vec_with_capacity() {
    let vec: Vec<(Amount, i64)> = Vec::with_capacity(10);
    assert_eq!(vec.len(), 0);
}

#[test]
fn prices_vec_len() {
    let vec: Vec<(Amount, i64)> = Vec::with_capacity(10);
    assert_eq!(vec.len(), 0);
}

#[test]
fn asks_vec_add() {
    let mut vec: Vec<(Amount, i64)> = Vec::with_capacity(10);
    vec.push((Amount::new(), 0));
    assert_eq!(vec.len(), 1);
    assert_eq!(vec[0], (Amount::new(), 0));
}

#[test]
fn asks_vec_search_ok() {
    let mut asks_vec: Vec<(Amount, i64)> = Vec::with_capacity(10);
    let amounts_vec = ["44.10", "44.20", "60.00", "70.00"];
    for item in amounts_vec.iter() {
        let am_item = Amount::new_from_str(item).unwrap();
        asks_vec.push((am_item, 100));
    }
    let idx = asks_vec
        .binary_search_by_key(&Amount::new_from_str("44.20").unwrap(), |&(price, _size)| price);
    assert_eq!(idx, Ok(1));
}

#[test]
fn asks_vec_search_err() {
    let mut asks_vec: Vec<(Amount, i64)> = Vec::with_capacity(10);
    let amounts_vec = ["44.10", "44.20", "60.00", "70.00"];
    let size = 100;
    for item in amounts_vec.iter() {
        let am_item = Amount::new_from_str(item).unwrap();
        asks_vec.push((am_item, size));
    }
    let idx = asks_vec.binary_search(&(Amount::new_from_str("84.20").unwrap(), size));
    assert_eq!(idx, Err(4));
}

#[test]
fn reduce_keeps_cache_entry() {
    let mut ob = OrderBook::new(200, IdPriceCacheFnvMap::default());
    ob.process("28800538 A b S 44.26 100");
    ob.process("28800744 R b 100");
    let entry = ob.cache.get(&hash("b"));
    assert_eq!(entry, Some((Amount::new_from_str("44.26").unwrap(), OrderSide::Ask)));
}

#[test]
fn summarise_is_repeatable() {
    let mut ob = OrderBook::new(2, IdPriceCacheFnvMap::default());
    ob.process("1 A a B 1.00 1");
    ob.process("2 A b B 2.00 1");
    let first = ob.summarise_target();
    let second = ob.summarise_target();
    assert_eq!(first, second);
    assert_eq!(first, Some(Amount::new_from_str("3.00").unwrap()));
}

#[test]
fn unknown_reduce_leaves_book_untouched() {
    let mut ob = OrderBook::new(1, IdPriceCacheFnvMap::default());
    ob.process("1 A a S 10.00 1");
    let outcome = ob.process("2 R zz 1");
    assert_eq!(outcome, orderbook::ProcessOutcome::UnknownId);
    assert_eq!(ob.asks_total_size, 1);
    assert_eq!(ob.last_action_timestamp, 1);
}

#[test]
fn distinct_ids_hash_apart() {
    assert_ne!(hash("b"), hash("c"));
    assert_eq!(hash("b"), hash("b"));
}
