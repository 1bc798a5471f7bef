//! The report emitter: remembers, per reported side, the last value told
//! to the outside, decides after each event whether there is anything new
//! to say, and renders the report line.

use vstd::prelude::*;

use crate::amount::{money_str, Amount};
use crate::decimal::{append_i64, i64_digits};
use crate::orderbook::{IdPriceCache, OrderBook, ProcessOutcome};
use crate::orderside::OrderSide;

verus! {

/// The last reported summary, one memory per reported side. The two sides
/// are independent: a report for one never touches the memory of the
/// other.
#[derive(Copy, Clone, Debug, PartialEq, Eq, Structural)]
pub struct Reports {
    /// The last value reported for the bid side.
    pub bid: Option<Amount>,
    /// The last value reported for the ask side.
    pub ask: Option<Amount>,
}

/// The memory `reports` keeps for one reported side.
pub open spec fn report_of(reports: Reports, side: OrderSide) -> Option<Amount> {
    match side {
        OrderSide::Bid => reports.bid,
        OrderSide::Ask => reports.ask,
    }
}

/// A fresh pair of report memories, both empty.
pub fn prepare_reports() -> (r: Reports)
    ensures
        r.bid is None,
        r.ask is None,
{
    Reports { bid: None, ask: None }
}

impl Reports {
    /// The memory for one side.
    pub fn get(&self, side: OrderSide) -> (r: Option<Amount>)
        ensures
            r == report_of(*self, side),
    {
        match side {
            OrderSide::Bid => self.bid,
            OrderSide::Ask => self.ask,
        }
    }

    /// Replaces the memory for one side, leaving the other untouched.
    pub fn set(&mut self, side: OrderSide, value: Option<Amount>)
        ensures
            report_of(*final(self), side) == value,
            report_of(*final(self), side.negate()) == report_of(*old(self), side.negate()),
    {
        match side {
            OrderSide::Bid => {
                self.bid = value;
            },
            OrderSide::Ask => {
                self.ask = value;
            },
        }
    }
}

/// The text of one report line: the timestamp, the reported side's
/// character, and the rendered total — or `NA` when the book can no longer
/// clear the target.
pub open spec fn report_line(ts: int, side: OrderSide, cur: Option<Amount>) -> Seq<char> {
    i64_digits(ts) + seq![' '] + seq![side.render_spec()] + seq![' '] + (match cur {
        Some(a) => money_str(a.as_int as int),
        None => seq!['N', 'A'],
    })
}

/// Renders one report line.
pub fn render_report(ts: i64, side: OrderSide, cur: Option<Amount>) -> (r: String)
    ensures
        r@ == report_line(ts as int, side, cur),
{
    let mut out = String::new();
    append_i64(&mut out, ts);
    proof {
        reveal_strlit(" ");
        reveal_strlit("B");
        reveal_strlit("S");
        reveal_strlit("NA");
    }
    out.append(" ");
    match side {
        OrderSide::Bid => out.append("B"),
        OrderSide::Ask => out.append("S"),
    }
    out.append(" ");
    match cur {
        Some(a) => {
            let rendered = a.render();
            out.append(rendered.as_str());
        },
        None => {
            out.append("NA");
        },
    }
    proof {
        assert(out@ =~= report_line(ts as int, side, cur));
    }
    out
}

/// What `handle_line` returns for a line.
pub enum StepOutput {
    /// A report line to emit.
    Report(String),
    /// Nothing to emit for this line.
    Silent,
    /// The line reduced an id that was never added: the stream is corrupt
    /// and processing must stop.
    Fatal,
}

/// Which outcome `process` reaches on a line, as a function of the book
/// state and the line alone.
pub open spec fn outcome_of<T: IdPriceCache>(pre: OrderBook<T>, line: Seq<char>) -> ProcessOutcome {
    let toks = crate::orders::tokens_of(line);
    if toks.len() >= 2 && toks[1] == seq!['A'] {
        match crate::orders::limit_result_spec(toks) {
            Ok(o) => {
                if pre.can_absorb(o) {
                    ProcessOutcome::Applied
                } else {
                    ProcessOutcome::Ignored
                }
            },
            Err(_) => ProcessOutcome::Ignored,
        }
    } else if toks.len() >= 2 && toks[1] == seq!['R'] {
        match crate::orders::reduce_result_spec(toks) {
            Ok(o) => {
                if pre.cache.entries().contains_key(o.id) {
                    ProcessOutcome::Applied
                } else {
                    ProcessOutcome::UnknownId
                }
            },
            Err(_) => ProcessOutcome::Ignored,
        }
    } else {
        ProcessOutcome::Ignored
    }
}

/// Feeds one input line to the book and decides what to emit.
///
/// A line that applies an event is followed by a fresh summary `cur` for
/// the side opposite the one just touched, and a report is produced if and
/// only if `cur` differs from what was last reported for that side; the
/// memory for that side is then set to `cur`, the other side's memory kept.
/// A line the book ignores emits nothing and changes no memory; a reduce
/// of an unknown id is fatal and changes nothing.
pub fn handle_line<T: IdPriceCache>(
    book: &mut OrderBook<T>,
    prev: &mut Reports,
    line: &str,
) -> (r: StepOutput)
    requires
        old(book).wf(),
    ensures
        final(book).wf(),
        OrderBook::<T>::process_rel(
            *old(book),
            *final(book),
            line@,
            outcome_of(*old(book), line@),
        ),
        ({
            let oc = outcome_of(*old(book), line@);
            if oc is Applied {
                let cur = final(book).summarise_spec();
                let rside = final(book).last_action_side.negate();
                let before = report_of(*old(prev), rside);
                &&& match r {
                    StepOutput::Report(s) => cur != before && s@ == report_line(
                        final(book).last_action_timestamp as int,
                        rside,
                        cur,
                    ),
                    StepOutput::Silent => cur == before,
                    StepOutput::Fatal => false,
                }
                &&& report_of(*final(prev), rside) == cur
                &&& report_of(*final(prev), rside.negate()) == report_of(
                    *old(prev),
                    rside.negate(),
                )
            } else if oc is UnknownId {
                &&& r is Fatal
                &&& *final(prev) == *old(prev)
                &&& *final(book) == *old(book)
            } else {
                &&& r is Silent
                &&& *final(prev) == *old(prev)
                &&& *final(book) == *old(book)
            }
        }),
{
    let outcome = book.process(line);
    match outcome {
        ProcessOutcome::Ignored => StepOutput::Silent,
        ProcessOutcome::UnknownId => StepOutput::Fatal,
        ProcessOutcome::Applied => {
            let cur = book.summarise_target();
            let rside = book.last_action_side.not();
            let before = prev.get(rside);
            let unchanged = match (cur, before) {
                (Some(a), Some(b)) => a.as_int == b.as_int,
                (None, None) => true,
                _ => false,
            };
            prev.set(rside, cur);
            if unchanged {
                StepOutput::Silent
            } else {
                let text = render_report(book.last_action_timestamp, rside, cur);
                StepOutput::Report(text)
            }
        },
    }
}

} // verus!
