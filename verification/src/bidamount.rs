//! A money amount ordered for the bid side of the book: the comparison is
//! reversed, so that ascending order by `BidAmount` is descending order by
//! price. A sorted vector of these puts the most aggressive bid first.

use std::cmp::Ordering;

use vstd::prelude::*;

use crate::amount::{money_str, money_val, Amount};
use crate::errors::InputError;

verus! {

/// A money amount in hundredths, compared in reverse.
#[derive(Copy, Clone, Debug, PartialEq, Eq, Structural)]
pub struct BidAmount {
    /// The amount scaled by one hundred.
    pub as_int: u64,
}

impl BidAmount {
    /// The zero amount.
    pub fn new() -> (r: Self)
        ensures
            r.as_int == 0,
    {
        BidAmount { as_int: 0 }
    }

    /// Parses a decimal price string with at most two fractional digits.
    pub fn new_from_str(input_string: &str) -> (r: Result<Self, InputError>)
        ensures
            match r {
                Ok(a) => money_val(input_string@) == Some(a.as_int),
                Err(e) => money_val(input_string@) is None && e == InputError::MalformedPrice,
            },
    {
        match Amount::new_from_str(input_string) {
            Ok(a) => Ok(BidAmount { as_int: a.as_int }),
            Err(e) => Err(e),
        }
    }

    /// The reversed comparison: a higher price compares as smaller.
    pub open spec fn cmp_spec(self, other: BidAmount) -> Ordering {
        if self.as_int > other.as_int {
            Ordering::Less
        } else if self.as_int < other.as_int {
            Ordering::Greater
        } else {
            Ordering::Equal
        }
    }

    /// Compares two bid amounts, higher price first.
    pub fn cmp(&self, other: &BidAmount) -> (r: Ordering)
        ensures
            r == self.cmp_spec(*other),
    {
        if self.as_int > other.as_int {
            Ordering::Less
        } else if self.as_int < other.as_int {
            Ordering::Greater
        } else {
            Ordering::Equal
        }
    }

    /// Adds another amount in place.
    pub fn add_assign(&mut self, other_amount: Self)
        requires
            old(self).as_int + other_amount.as_int <= u64::MAX,
        ensures
            final(self).as_int == old(self).as_int + other_amount.as_int,
    {
        self.as_int = self.as_int + other_amount.as_int;
    }

    /// Scales the amount in place by an integer quantity.
    pub fn mul_assign(&mut self, multiplier: u64)
        requires
            old(self).as_int * multiplier <= u64::MAX,
        ensures
            final(self).as_int == old(self).as_int * multiplier,
    {
        self.as_int = self.as_int * multiplier;
    }

    /// The amount scaled by an integer quantity.
    pub fn mul(self, rhs: u64) -> (r: Self)
        requires
            self.as_int * rhs <= u64::MAX,
        ensures
            r.as_int == self.as_int * rhs,
    {
        BidAmount { as_int: self.as_int * rhs }
    }

    /// Renders the amount as `integer.dd`, always with exactly two
    /// fractional digits.
    pub fn render(&self) -> (r: String)
        ensures
            r@ == money_str(self.as_int as int),
    {
        let a = Amount { as_int: self.as_int };
        a.render()
    }
}

impl PartialOrd for BidAmount {
    /// The reversed order as a partial order: every pair compares.
    fn partial_cmp(&self, other: &BidAmount) -> (r: Option<Ordering>) {
        Some(self.cmp(other))
    }
}

impl vstd::std_specs::cmp::PartialOrdSpecImpl for BidAmount {
    open spec fn obeys_partial_cmp_spec() -> bool {
        true
    }

    open spec fn partial_cmp_spec(&self, other: &BidAmount) -> Option<Ordering> {
        Some(self.cmp_spec(*other))
    }
}

impl From<Amount> for BidAmount {
    /// The same amount, reinterpreted under the bid-side ordering.
    fn from(item: Amount) -> (r: Self) {
        BidAmount { as_int: item.as_int }
    }
}

impl vstd::std_specs::convert::FromSpecImpl<Amount> for BidAmount {
    open spec fn obeys_from_spec() -> bool {
        true
    }

    open spec fn from_spec(t: Amount) -> Self {
        BidAmount { as_int: t.as_int }
    }
}

/// Binary search in a vector sorted ascending under the bid-side ordering,
/// that is, by descending price. Mirrors the standard library's
/// `binary_search`: `Ok` with a matching index, or `Err` with the index at
/// which the key would be inserted to keep the order.
pub fn bidamount_vec_search(v: &Vec<BidAmount>, key: &BidAmount) -> (r: Result<usize, usize>)
    requires
        forall|i: int, j: int|
            0 <= i < j < v@.len() ==> #[trigger] v@[i].as_int > #[trigger] v@[j].as_int,
    ensures
        match r {
            Ok(i) => i < v@.len() && v@[i as int].as_int == key.as_int,
            Err(i) => {
                &&& i <= v@.len()
                &&& forall|j: int| 0 <= j < i ==> #[trigger] v@[j].as_int > key.as_int
                &&& forall|j: int| i <= j < v@.len() ==> #[trigger] v@[j].as_int < key.as_int
            },
        },
{
    let mut lo: usize = 0;
    let mut hi: usize = v.len();
    while lo < hi
        invariant
            0 <= lo <= hi <= v@.len(),
            forall|i: int, j: int|
                0 <= i < j < v@.len() ==> #[trigger] v@[i].as_int > #[trigger] v@[j].as_int,
            forall|j: int| 0 <= j < lo ==> #[trigger] v@[j].as_int > key.as_int,
            forall|j: int| hi <= j < v@.len() ==> #[trigger] v@[j].as_int < key.as_int,
        decreases hi - lo,
    {
        let mid = lo + (hi - lo) / 2;
        let m = v[mid].as_int;
        if m > key.as_int {
            lo = mid + 1;
        } else if m < key.as_int {
            hi = mid;
        } else {
            return Ok(mid);
        }
    }
    Err(lo)
}

} // verus!
