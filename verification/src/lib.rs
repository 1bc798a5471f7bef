//! A live limit-order book for a single instrument. Events — limit-order
//! additions and reductions — arrive as text lines; after every applied
//! event the book can say what it would cost (or earn) to clear a fixed
//! target quantity against the side just touched, and the report emitter
//! speaks only when that answer changed.

pub mod amount;
pub mod bidamount;
pub mod decimal;
pub mod errors;
pub mod ladder;
pub mod orderbook;
pub mod orders;
pub mod orderside;
pub mod reports;

pub use amount::Amount;
pub use bidamount::BidAmount;
pub use errors::InputError;
pub use orderbook::{IdPriceCache, IdPriceCacheFnvMap, OrderBook, ProcessOutcome};
pub use orders::{hash, tokenize, LimitOrder, ReduceOrder};
pub use orderside::OrderSide;
pub use reports::{handle_line, prepare_reports, Reports, StepOutput};
