use orderbook::Amount;
use orderbook::InputError;

#[test]
fn amount_constructor_from_str_works() {
    let am = Amount::new_from_str("44.12").unwrap();
    assert_eq!(am.as_int, 4412);
}

#[test]
fn amount_constructor_default_works() {
    let am = Amount::new();
    assert_eq!(am.as_int, 0);
}

#[test]
fn amount_bad_input_rejected() {
    assert_eq!(Amount::new_from_str("asda"), Err(InputError::MalformedPrice));
}

#[test]
fn amount_multiply_by_zero() {
    let mut am = Amount::new_from_str("44.12").unwrap();
    am.mul_assign(0);
    assert_eq!(am.as_int, 0);
}

#[test]
fn amount_multiply_by_ten() {
    let mut am = Amount::new_from_str("44.12").unwrap();
    am.mul_assign(10);
    assert_eq!(am.as_int, 44120);
}

#[test]
fn amount_add_two_amounts() {
    let mut am1 = Amount::new_from_str("44.12").unwrap();
    let am2 = Amount::new_from_str("45.80").unwrap();
    am1.add_assign(am2);
    assert_eq!(am1.as_int, 8992);
}

#[test]
fn amount_display_works() {
    let input_string = "44.12";
    let am1 = Amount::new_from_str(input_string).unwrap();
    let res = am1.render();
    assert_eq!(res, input_string);
}

#[test]
fn amount_render_pads_fraction() {
    assert_eq!(Amount { as_int: 305 }.render(), "3.05");
    assert_eq!(Amount { as_int: 320 }.render(), "3.20");
    assert_eq!(Amount { as_int: 7 }.render(), "0.07");
    assert_eq!(Amount { as_int: 0 }.render(), "0.00");
}

#[test]
fn amount_parse_fraction_shapes() {
    assert_eq!(Amount::new_from_str("44").unwrap().as_int, 4400);
    assert_eq!(Amount::new_from_str("44.1").unwrap().as_int, 4410);
    assert_eq!(Amount::new_from_str("0.01").unwrap().as_int, 1);
    assert_eq!(Amount::new_from_str("44.123"), Err(InputError::MalformedPrice));
    assert_eq!(Amount::new_from_str("44."), Err(InputError::MalformedPrice));
    assert_eq!(Amount::new_from_str(".12"), Err(InputError::MalformedPrice));
    assert_eq!(Amount::new_from_str("-1.00"), Err(InputError::MalformedPrice));
    assert_eq!(Amount::new_from_str(""), Err(InputError::MalformedPrice));
    assert_eq!(Amount::new_from_str("4.4.4"), Err(InputError::MalformedPrice));
}

#[test]
fn amount_render_parse_round_trip() {
    let inputs = ["1234.56", "0.00", "9.99", "100.01"];
    for s in inputs.iter() {
        let am = Amount::new_from_str(s).unwrap();
        assert_eq!(am.render(), *s);
    }
}

#[test]
fn amount_mul_returns_product() {
    let am = Amount::new_from_str("2.50").unwrap();
    assert_eq!(am.mul(4).as_int, 1000);
}
