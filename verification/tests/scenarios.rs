use orderbook::handle_line;
use orderbook::prepare_reports;
use orderbook::IdPriceCacheFnvMap;
use orderbook::OrderBook;
use orderbook::StepOutput;

fn run_feed(target: i64, lines: &[&str]) -> Vec<String> {
    let mut book = OrderBook::new(target, IdPriceCacheFnvMap::default());
    let mut prev = prepare_reports();
    let mut out: Vec<String> = Vec::new();
    for line in lines.iter() {
        match handle_line(&mut book, &mut prev, line) {
            StepOutput::Report(s) => out.push(s),
            StepOutput::Silent => {}
            StepOutput::Fatal => panic!("reduce of an unknown order id"),
        }
    }
    out
}

#[test]
fn asks_insufficient_then_sufficient() {
    let out = run_feed(1, &["10 A a S 10.00 1"]);
    assert_eq!(out, vec!["10 B 10.00"]);
}

#[test]
fn ask_then_reduce_to_na() {
    let out = run_feed(1, &["10 A a S 10.00 1", "20 R a 1"]);
    assert_eq!(out, vec!["10 B 10.00", "20 B NA"]);
}

#[test]
fn classic_sample() {
    let out = run_feed(
        200,
        &[
            "28800538 A b S 44.26 100",
            "28800562 A c B 44.10 100",
            "28800744 R b 100",
            "28800758 A d B 44.18 157",
            "28800796 R d 157",
        ],
    );
    assert_eq!(out, vec!["28800758 S 8832.56", "28800796 S NA"]);
}

#[test]
fn aggressive_order_tie_break() {
    let out = run_feed(2, &["100 A a B 1.00 1", "200 A b B 2.00 1"]);
    assert_eq!(out, vec!["200 S 3.00"]);
}

#[test]
fn cross_without_match() {
    // The bid at 50.00 and the ask at 40.00 coexist: nothing matches. The
    // first add makes the bid side reportable, the second the ask side.
    let out = run_feed(1, &["1 A a B 50.00 1", "2 A b S 40.00 1"]);
    assert_eq!(out, vec!["1 S 50.00", "2 B 40.00"]);
}

#[test]
fn idempotent_same_price_reduces() {
    let out = run_feed(5, &["1 A a B 1.00 10", "2 R a 5"]);
    assert_eq!(out, vec!["1 S 5.00"]);
}

#[test]
fn na_reported_only_once() {
    let out = run_feed(1, &["10 A a S 10.00 2", "20 R a 1", "30 R a 1"]);
    assert_eq!(out, vec!["10 B 10.00", "30 B NA"]);
}

#[test]
fn unrecognised_lines_are_silent() {
    let out = run_feed(1, &["", "nonsense line", "10 X a S 1.00 1", "10 A a S 10.00 1"]);
    assert_eq!(out, vec!["10 B 10.00"]);
}

#[test]
fn malformed_events_skip_without_touching_book() {
    let out = run_feed(
        1,
        &["10 A a Q 10.00 1", "10 A a S 10.001 1", "10 A a S 10.00 1"],
    );
    assert_eq!(out, vec!["10 B 10.00"]);
}

#[test]
fn negative_timestamp_renders_with_sign() {
    let out = run_feed(1, &["-5 A a S 1.00 1"]);
    assert_eq!(out, vec!["-5 B 1.00"]);
}

#[test]
fn unknown_id_is_fatal() {
    let mut book = OrderBook::new(1, IdPriceCacheFnvMap::default());
    let mut prev = prepare_reports();
    let r = handle_line(&mut book, &mut prev, "2 R ghost 1");
    assert!(matches!(r, StepOutput::Fatal));
}

#[test]
fn overflowing_add_is_ignored() {
    // The book's value counter holds hundredths in a 64-bit word; an add
    // worth more than that is dropped like any other unusable line.
    let mut book = OrderBook::new(1, IdPriceCacheFnvMap::default());
    let mut prev = prepare_reports();
    let r = handle_line(
        &mut book,
        &mut prev,
        "1 A a B 184467440737095516.15 2",
    );
    assert!(matches!(r, StepOutput::Silent));
    assert_eq!(book.bids_total_size, 0);
}
