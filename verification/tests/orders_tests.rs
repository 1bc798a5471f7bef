use orderbook::hash;
use orderbook::tokenize;
use orderbook::InputError;
use orderbook::LimitOrder;
use orderbook::OrderSide;
use orderbook::ReduceOrder;

#[test]
fn limit_order_constructor() {
    let lo = LimitOrder::new("28800538 A b S 44.07 100".split(' ').collect()).unwrap();
    assert_eq!(lo.timestamp, 28800538);
    assert_eq!(lo.id, hash("b"));
    assert_eq!(lo.side, OrderSide::Ask);
    assert_eq!(lo.price.as_int, 4407);
    assert_eq!(lo.size, 100);
}

#[test]
fn reduce_order_constructor() {
    let ro = ReduceOrder::new("28800744 R b 20".split(' ').collect()).unwrap();
    assert_eq!(ro.timestamp, 28800744);
    assert_eq!(ro.size, 20);
    assert_eq!(ro.id, hash("b"));
}

#[test]
fn limit_order_rejects_bad_side() {
    let r = LimitOrder::new("1 A x Q 1.00 5".split(' ').collect());
    assert_eq!(r, Err(InputError::MalformedSide));
}

#[test]
fn limit_order_rejects_bad_price() {
    let r = LimitOrder::new("1 A x B 1.234 5".split(' ').collect());
    assert_eq!(r, Err(InputError::MalformedPrice));
}

#[test]
fn limit_order_rejects_short_line() {
    let r = LimitOrder::new("1 A x B 1.00".split(' ').collect());
    assert_eq!(r, Err(InputError::MalformedEvent));
}

#[test]
fn limit_order_rejects_zero_size() {
    let r = LimitOrder::new("1 A x B 1.00 0".split(' ').collect());
    assert_eq!(r, Err(InputError::MalformedEvent));
}

#[test]
fn reduce_order_rejects_bad_timestamp() {
    let r = ReduceOrder::new("ts R b 20".split(' ').collect());
    assert_eq!(r, Err(InputError::MalformedEvent));
}

#[test]
fn tokenize_splits_on_whitespace_runs() {
    let toks = tokenize("  28800538  A b \t S 44.26 100 ");
    assert_eq!(toks, vec!["28800538", "A", "b", "S", "44.26", "100"]);
    let empty = tokenize("   ");
    assert_eq!(empty.len(), 0);
}

#[test]
fn limit_order_rejects_negative_size() {
    let r = LimitOrder::new("1 A x B 1.00 -5".split(' ').collect());
    assert_eq!(r, Err(InputError::MalformedEvent));
}
