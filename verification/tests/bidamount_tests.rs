use std::cmp::Ordering;

use orderbook::bidamount::bidamount_vec_search;
use orderbook::Amount;
use orderbook::BidAmount;
use orderbook::InputError;

#[test]
fn bidamount_constructor_from_str_works() {
    let am = BidAmount::new_from_str("44.12").unwrap();
    assert_eq!(am.as_int, 4412);
}

#[test]
fn bidamount_constructor_default_works() {
    let am = BidAmount::new();
    assert_eq!(am.as_int, 0);
}

#[test]
fn bidamount_bad_input_rejected() {
    assert_eq!(BidAmount::new_from_str("asda"), Err(InputError::MalformedPrice));
}

#[test]
fn bidamount_multiply_by_zero() {
    let mut am = BidAmount::new_from_str("44.12").unwrap();
    am.mul_assign(0);
    assert_eq!(am.as_int, 0);
}

#[test]
fn bidamount_multiply_by_ten() {
    let mut am = BidAmount::new_from_str("44.12").unwrap();
    am.mul_assign(10);
    assert_eq!(am.as_int, 44120);
}

#[test]
fn bidamount_add_two_amounts() {
    let mut am1 = BidAmount::new_from_str("44.12").unwrap();
    let am2 = BidAmount::new_from_str("45.80").unwrap();
    am1.add_assign(am2);
    assert_eq!(am1.as_int, 8992);
}

#[test]
fn bidamount_display_works() {
    let input_string = "44.12";
    let am1 = BidAmount::new_from_str(input_string).unwrap();
    let res = am1.render();
    assert_eq!(res, input_string);
}

#[test]
fn compare_equals() {
    let input_string = "44.12";
    let am1 = BidAmount::new_from_str(input_string).unwrap();
    let am2 = BidAmount::new_from_str(input_string).unwrap();
    assert_eq!(am1, am2);
}

#[test]
fn compare_less() {
    let am1 = BidAmount::new_from_str("44.12").unwrap();
    let am2 = BidAmount::new_from_str("44.10").unwrap();
    assert_eq!(am1.cmp(&am2), Ordering::Less);
}

#[test]
fn compare_greater() {
    let am1 = BidAmount::new_from_str("44.12").unwrap();
    let am2 = BidAmount::new_from_str("44.10").unwrap();
    assert_eq!(am2.cmp(&am1), Ordering::Greater);
}

#[test]
fn bin_search_with_new_order() {
    let v: Vec<BidAmount> = vec!["50.20", "49.00", "45.00", "41.00"]
        .into_iter()
        .map(|price| BidAmount::new_from_str(price).unwrap())
        .collect();
    assert_eq!(bidamount_vec_search(&v, &BidAmount::new()), Err(4));
    assert_eq!(bidamount_vec_search(&v, &BidAmount::new_from_str("49.00").unwrap()), Ok(1));
    assert_eq!(bidamount_vec_search(&v, &BidAmount::new_from_str("44.99").unwrap()), Err(3));
}

#[test]
fn convert_from_amount_to_bidamount() {
    let a = Amount::new();
    let ba: BidAmount = a.into();
    assert_eq!(ba, BidAmount::new());
}

#[test]
fn convert_from_ref_amount_to_bidamount() {
    let a = Amount::new();
    let ba: &BidAmount = &a.into();
    assert_eq!(ba, &BidAmount::new());
}
