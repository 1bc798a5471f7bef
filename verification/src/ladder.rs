//! The price ladder model: a ladder is a sequence of price levels, each a
//! price with its aggregate remaining depth, ordered from the most
//! aggressive price outward. This module gives the ladder its mathematical
//! model — depth and value sums, ordering, and the target-clearing walk —
//! and the lemmas the order book needs about them.

use vstd::prelude::*;

use crate::amount::Amount;

verus! {

/// The sum of the depths of all levels.
pub open spec fn sum_depth(levels: Seq<(Amount, i64)>) -> int
    decreases levels.len(),
{
    if levels.len() == 0 {
        0
    } else {
        sum_depth(levels.drop_last()) + levels.last().1
    }
}

/// The sum over all levels of price times depth: the total money value
/// resting on the ladder, in hundredths.
pub open spec fn sum_value(levels: Seq<(Amount, i64)>) -> int
    decreases levels.len(),
{
    if levels.len() == 0 {
        0
    } else {
        sum_value(levels.drop_last()) + levels.last().0.as_int * levels.last().1
    }
}

/// Every level's depth is non-negative.
pub open spec fn depths_nonneg(levels: Seq<(Amount, i64)>) -> bool {
    forall|i: int| 0 <= i < levels.len() ==> (#[trigger] levels[i]).1 >= 0
}

/// Prices strictly ascending: the ask-side order, lowest price first.
pub open spec fn asc_prices(levels: Seq<(Amount, i64)>) -> bool {
    forall|i: int, j: int|
        0 <= i < j < levels.len() ==> (#[trigger] levels[i]).0.as_int < (
        #[trigger] levels[j]).0.as_int
}

/// Prices strictly descending: the bid-side order, highest price first.
pub open spec fn desc_prices(levels: Seq<(Amount, i64)>) -> bool {
    forall|i: int, j: int|
        0 <= i < j < levels.len() ==> (#[trigger] levels[i]).0.as_int > (
        #[trigger] levels[j]).0.as_int
}

/// Whether some level carries this price.
pub open spec fn has_price(levels: Seq<(Amount, i64)>, price: u64) -> bool {
    exists|i: int| 0 <= i < levels.len() && (#[trigger] levels[i]).0.as_int == price
}

/// The index of the level carrying this price; meaningful only when
/// `has_price` holds and prices are distinct.
pub open spec fn index_of_price(levels: Seq<(Amount, i64)>, price: u64) -> int {
    choose|i: int| 0 <= i < levels.len() && (#[trigger] levels[i]).0.as_int == price
}

/// On a strictly ordered ladder each price occurs at most once, so the
/// index of a price is the index where it was found.
pub proof fn lemma_index_of_price_unique(levels: Seq<(Amount, i64)>, i: int)
    requires
        asc_prices(levels) || desc_prices(levels),
        0 <= i < levels.len(),
    ensures
        has_price(levels, levels[i].0.as_int),
        index_of_price(levels, levels[i].0.as_int) == i,
{
    let p = levels[i].0.as_int;
    assert(has_price(levels, p));
    let j = index_of_price(levels, p);
    assert(0 <= j < levels.len() && levels[j].0.as_int == p);
    if j < i {
        assert(levels[j].0.as_int != levels[i].0.as_int);
    } else if j > i {
        assert(levels[i].0.as_int != levels[j].0.as_int);
    }
}

/// How adding `size` shares at `price` changes a ladder: the depth grows
/// at the level carrying the price, or a fresh level is inserted.
pub open spec fn ladder_add_rel(
    pre: Seq<(Amount, i64)>,
    post: Seq<(Amount, i64)>,
    price: Amount,
    size: int,
) -> bool {
    if has_price(pre, price.as_int) {
        let i = index_of_price(pre, price.as_int);
        post == pre.update(i, (pre[i].0, (pre[i].1 + size) as i64))
    } else {
        exists|i: int| 0 <= i <= pre.len() && post == #[trigger] pre.insert(i, (price, size as i64))
    }
}

/// How reducing `size` shares at `price` changes a ladder: the depth at
/// the level carrying the price falls by `min(size, depth)`, so it never
/// goes below zero; a price that is not present leaves the ladder as it
/// was.
pub open spec fn ladder_reduce(pre: Seq<(Amount, i64)>, price: u64, size: int) -> Seq<
    (Amount, i64),
> {
    if has_price(pre, price) {
        let i = index_of_price(pre, price);
        let d = pre[i].1 as int;
        let take = if d < size {
            d
        } else {
            size
        };
        pre.update(i, (pre[i].0, (d - take) as i64))
    } else {
        pre
    }
}

/// How many shares `ladder_reduce` actually removes.
pub open spec fn reduce_taken(pre: Seq<(Amount, i64)>, price: u64, size: int) -> int {
    if has_price(pre, price) {
        let d = pre[index_of_price(pre, price)].1 as int;
        if d < size {
            d
        } else {
            size
        }
    } else {
        0
    }
}

/// Binary search in a ladder with strictly ascending prices.
pub fn search_asc(levels: &Vec<(Amount, i64)>, price: u64) -> (r: Result<usize, usize>)
    requires
        asc_prices(levels@),
    ensures
        match r {
            Ok(i) => i < levels@.len() && levels@[i as int].0.as_int == price,
            Err(i) => {
                &&& i <= levels@.len()
                &&& forall|j: int| 0 <= j < i ==> (#[trigger] levels@[j]).0.as_int < price
                &&& forall|j: int|
                    i <= j < levels@.len() ==> (#[trigger] levels@[j]).0.as_int > price
            },
        },
{
    let mut lo: usize = 0;
    let mut hi: usize = levels.len();
    while lo < hi
        invariant
            0 <= lo <= hi <= levels@.len(),
            asc_prices(levels@),
            forall|j: int| 0 <= j < lo ==> (#[trigger] levels@[j]).0.as_int < price,
            forall|j: int| hi <= j < levels@.len() ==> (#[trigger] levels@[j]).0.as_int > price,
        decreases hi - lo,
    {
        let mid = lo + (hi - lo) / 2;
        let m = levels[mid].0.as_int;
        if m < price {
            lo = mid + 1;
        } else if m > price {
            hi = mid;
        } else {
            return Ok(mid);
        }
    }
    Err(lo)
}

/// Binary search in a ladder with strictly descending prices.
pub fn search_desc(levels: &Vec<(Amount, i64)>, price: u64) -> (r: Result<usize, usize>)
    requires
        desc_prices(levels@),
    ensures
        match r {
            Ok(i) => i < levels@.len() && levels@[i as int].0.as_int == price,
            Err(i) => {
                &&& i <= levels@.len()
                &&& forall|j: int| 0 <= j < i ==> (#[trigger] levels@[j]).0.as_int > price
                &&& forall|j: int|
                    i <= j < levels@.len() ==> (#[trigger] levels@[j]).0.as_int < price
            },
        },
{
    let mut lo: usize = 0;
    let mut hi: usize = levels.len();
    while lo < hi
        invariant
            0 <= lo <= hi <= levels@.len(),
            desc_prices(levels@),
            forall|j: int| 0 <= j < lo ==> (#[trigger] levels@[j]).0.as_int > price,
            forall|j: int| hi <= j < levels@.len() ==> (#[trigger] levels@[j]).0.as_int < price,
        decreases hi - lo,
    {
        let mid = lo + (hi - lo) / 2;
        let m = levels[mid].0.as_int;
        if m > price {
            lo = mid + 1;
        } else if m < price {
            hi = mid;
        } else {
            return Ok(mid);
        }
    }
    Err(lo)
}

/// The money value of clearing up to `left` shares against the ladder in
/// its own order, taking `min(depth, remaining)` at each level.
pub open spec fn walk_value(levels: Seq<(Amount, i64)>, left: int) -> int
    decreases levels.len(),
{
    if left <= 0 || levels.len() == 0 {
        0
    } else {
        let take = if levels[0].1 < left {
            levels[0].1 as int
        } else {
            left
        };
        levels[0].0.as_int * take + walk_value(levels.drop_first(), left - take)
    }
}

/// How many shares the clearing walk takes in total.
pub open spec fn walk_taken(levels: Seq<(Amount, i64)>, left: int) -> int
    decreases levels.len(),
{
    if left <= 0 || levels.len() == 0 {
        0
    } else {
        let take = if levels[0].1 < left {
            levels[0].1 as int
        } else {
            left
        };
        take + walk_taken(levels.drop_first(), left - take)
    }
}

pub proof fn lemma_sum_depth_first(levels: Seq<(Amount, i64)>)
    requires
        levels.len() >= 1,
    ensures
        sum_depth(levels) == levels[0].1 + sum_depth(levels.drop_first()),
    decreases levels.len(),
{
    if levels.len() == 1 {
        assert(levels.drop_first() =~= Seq::<(Amount, i64)>::empty());
        assert(levels.drop_last() =~= Seq::<(Amount, i64)>::empty());
    } else {
        let b = levels.drop_last();
        lemma_sum_depth_first(b);
        assert(b.drop_first() =~= levels.drop_first().drop_last());
        assert(b[0] == levels[0]);
        assert(levels.drop_first().last() == levels.last());
    }
}

pub proof fn lemma_sum_value_first(levels: Seq<(Amount, i64)>)
    requires
        levels.len() >= 1,
    ensures
        sum_value(levels) == levels[0].0.as_int * levels[0].1 + sum_value(levels.drop_first()),
    decreases levels.len(),
{
    if levels.len() == 1 {
        assert(levels.drop_first() =~= Seq::<(Amount, i64)>::empty());
        assert(levels.drop_last() =~= Seq::<(Amount, i64)>::empty());
    } else {
        let b = levels.drop_last();
        lemma_sum_value_first(b);
        assert(b.drop_first() =~= levels.drop_first().drop_last());
        assert(b[0] == levels[0]);
        assert(levels.drop_first().last() == levels.last());
    }
}

pub proof fn lemma_sum_depth_nonneg(levels: Seq<(Amount, i64)>)
    requires
        depths_nonneg(levels),
    ensures
        sum_depth(levels) >= 0,
    decreases levels.len(),
{
    if levels.len() > 0 {
        assert(depths_nonneg(levels.drop_last())) by {
            assert(forall|i: int|
                0 <= i < levels.len() - 1 ==> levels.drop_last()[i] == #[trigger] levels[i]);
        }
        lemma_sum_depth_nonneg(levels.drop_last());
        assert(levels.last().1 >= 0);
    }
}

pub proof fn lemma_sum_value_nonneg(levels: Seq<(Amount, i64)>)
    requires
        depths_nonneg(levels),
    ensures
        sum_value(levels) >= 0,
    decreases levels.len(),
{
    if levels.len() > 0 {
        assert(depths_nonneg(levels.drop_last())) by {
            assert(forall|i: int|
                0 <= i < levels.len() - 1 ==> levels.drop_last()[i] == #[trigger] levels[i]);
        }
        lemma_sum_value_nonneg(levels.drop_last());
        let p = levels.last().0.as_int;
        let d = levels.last().1 as int;
        assert(p * d >= 0) by (nonlinear_arith)
            requires
                p >= 0,
                d >= 0,
        ;
    }
}

/// Replacing the depth at one level changes the depth sum by the
/// difference and the value sum by the price times the difference.
pub proof fn lemma_sum_update(levels: Seq<(Amount, i64)>, i: int, d2: i64)
    requires
        0 <= i < levels.len(),
    ensures
        sum_depth(levels.update(i, (levels[i].0, d2))) == sum_depth(levels) - levels[i].1 + d2,
        sum_value(levels.update(i, (levels[i].0, d2))) == sum_value(levels) + levels[i].0.as_int * d2
            - levels[i].0.as_int * levels[i].1,
    decreases levels.len(),
{
    let u = levels.update(i, (levels[i].0, d2));
    if i == levels.len() - 1 {
        assert(u.drop_last() =~= levels.drop_last());
        assert(u.last() == (levels[i].0, d2));
    } else {
        lemma_sum_update(levels.drop_last(), i, d2);
        assert(u.drop_last() =~= levels.drop_last().update(i, (levels[i].0, d2)));
        assert(levels.drop_last()[i] == levels[i]);
        assert(u.last() == levels.last());
    }
}

/// Inserting a level adds its depth to the depth sum and its price times
/// depth to the value sum.
pub proof fn lemma_sum_insert(levels: Seq<(Amount, i64)>, i: int, x: (Amount, i64))
    requires
        0 <= i <= levels.len(),
    ensures
        sum_depth(levels.insert(i, x)) == sum_depth(levels) + x.1,
        sum_value(levels.insert(i, x)) == sum_value(levels) + x.0.as_int * x.1,
    decreases levels.len(),
{
    let u = levels.insert(i, x);
    if i == levels.len() {
        assert(u.drop_last() =~= levels);
        assert(u.last() == x);
    } else {
        lemma_sum_insert(levels.drop_last(), i, x);
        assert(u.drop_last() =~= levels.drop_last().insert(i, x));
        assert(u.last() == levels.last());
    }
}

/// With non-negative depths, each level's depth is at most the depth sum,
/// and each level's value at most the value sum.
pub proof fn lemma_level_le_sum(levels: Seq<(Amount, i64)>, i: int)
    requires
        depths_nonneg(levels),
        0 <= i < levels.len(),
    ensures
        levels[i].1 <= sum_depth(levels),
        levels[i].0.as_int * levels[i].1 <= sum_value(levels),
    decreases levels.len(),
{
    let b = levels.drop_last();
    assert(depths_nonneg(b)) by {
        assert(forall|k: int| 0 <= k < levels.len() - 1 ==> b[k] == #[trigger] levels[k]);
    }
    if i == levels.len() - 1 {
        lemma_sum_depth_nonneg(b);
        lemma_sum_value_nonneg(b);
        assert(levels.last() == levels[i]);
    } else {
        lemma_level_le_sum(b, i);
        assert(b[i] == levels[i]);
        assert(levels.last().1 >= 0);
        let p = levels.last().0.as_int;
        let d = levels.last().1 as int;
        assert(p * d >= 0) by (nonlinear_arith)
            requires
                p >= 0,
                d >= 0,
        ;
    }
}

/// When the ladder holds at least `left` shares, the clearing walk takes
/// exactly `left` shares.
pub proof fn lemma_walk_fills(levels: Seq<(Amount, i64)>, left: int)
    requires
        depths_nonneg(levels),
        0 <= left <= sum_depth(levels),
    ensures
        walk_taken(levels, left) == left,
    decreases levels.len(),
{
    if left == 0 {
    } else {
        lemma_sum_depth_nonneg(levels);
        assert(levels.len() > 0);
        lemma_sum_depth_first(levels);
        let take = if levels[0].1 < left {
            levels[0].1 as int
        } else {
            left
        };
        let rest = levels.drop_first();
        assert(depths_nonneg(rest)) by {
            assert(forall|k: int|
                0 <= k < levels.len() - 1 ==> rest[k] == #[trigger] levels[k + 1]);
        }
        lemma_sum_depth_nonneg(rest);
        assert(left - take <= sum_depth(rest));
        lemma_walk_fills(rest, left - take);
    }
}

/// The walk's value is between zero and the ladder's whole value.
pub proof fn lemma_walk_value_bounds(levels: Seq<(Amount, i64)>, left: int)
    requires
        depths_nonneg(levels),
        left >= 0,
    ensures
        0 <= walk_value(levels, left) <= sum_value(levels),
    decreases levels.len(),
{
    lemma_sum_value_nonneg(levels);
    if left == 0 || levels.len() == 0 {
    } else {
        let p = levels[0].0.as_int;
        let d = levels[0].1 as int;
        let take = if levels[0].1 < left {
            d
        } else {
            left
        };
        let rest = levels.drop_first();
        assert(depths_nonneg(rest)) by {
            assert(forall|k: int|
                0 <= k < levels.len() - 1 ==> rest[k] == #[trigger] levels[k + 1]);
        }
        lemma_walk_value_bounds(rest, left - take);
        lemma_sum_value_first(levels);
        assert(0 <= p * take && p * take <= p * d) by (nonlinear_arith)
            requires
                p >= 0,
                0 <= take <= d,
        ;
    }
}

} // verus!
