//! Parsed event shapes — limit-order additions and reductions — together
//! with the line tokenizer and the id hash.

use vstd::prelude::*;

use crate::amount::{money_val, Amount};
use crate::decimal::{is_space, parse_i64_range, parse_i64_spec};
use crate::errors::InputError;
use crate::orderside::OrderSide;

verus! {

/// The 64-bit hash an order id string maps to. It depends on the
/// characters of the id alone.
pub uninterp spec fn fnv64_of(s: Seq<char>) -> u64;

/// Relies on `fnv::FnvHasher`: the Fowler–Noll–Vo hash of the string's
/// bytes, a deterministic function of the characters alone.
#[verifier::external_body]
pub fn hash(x: &str) -> (r: u64)
    ensures
        r == fnv64_of(x@),
{
    let mut hasher = fnv::FnvHasher::default();
    std::hash::Hash::hash(x, &mut hasher);
    std::hash::Hasher::finish(&hasher)
}

/// The length of the leading run of non-separator characters.
pub open spec fn first_sep(s: Seq<char>) -> int
    decreases s.len(),
{
    if s.len() == 0 {
        0
    } else if is_space(s[0]) {
        0
    } else {
        1 + first_sep(s.drop_first())
    }
}

pub proof fn lemma_first_sep_at(s: Seq<char>, k: int)
    requires
        0 <= k <= s.len(),
        forall|j: int| 0 <= j < k ==> !is_space(#[trigger] s[j]),
        k < s.len() ==> is_space(s[k]),
    ensures
        first_sep(s) == k,
    decreases s.len(),
{
    if s.len() == 0 {
    } else if is_space(s[0]) {
        assert(k == 0);
    } else {
        assert(k >= 1);
        let t = s.drop_first();
        assert forall|j: int| 0 <= j < k - 1 implies !is_space(#[trigger] t[j]) by {
            assert(t[j] == s[j + 1]);
        }
        assert(k - 1 < t.len() ==> t[k - 1] == s[k]);
        lemma_first_sep_at(t, k - 1);
    }
}

pub proof fn lemma_first_sep_bounds(s: Seq<char>)
    ensures
        0 <= first_sep(s) <= s.len(),
        s.len() > 0 && !is_space(s[0]) ==> first_sep(s) >= 1,
    decreases s.len(),
{
    if s.len() > 0 && !is_space(s[0]) {
        lemma_first_sep_bounds(s.drop_first());
    }
}

/// The whitespace-separated tokens of a line, in order, each non-empty.
pub open spec fn tokens_of(s: Seq<char>) -> Seq<Seq<char>>
    decreases s.len(),
    via tokens_of_decreases
{
    if s.len() == 0 {
        Seq::empty()
    } else if is_space(s[0]) {
        tokens_of(s.drop_first())
    } else {
        seq![s.subrange(0, first_sep(s))] + tokens_of(s.subrange(first_sep(s), s.len() as int))
    }
}

#[via_fn]
proof fn tokens_of_decreases(s: Seq<char>) {
    if s.len() > 0 && !is_space(s[0]) {
        lemma_first_sep_bounds(s);
    }
}

/// Whether `c` separates tokens.
pub fn is_space_char(c: char) -> (b: bool)
    ensures
        b == is_space(c),
{
    c == ' ' || c == '\t' || c == '\r' || c == '\n'
}

/// Splits a line into its whitespace-separated tokens.
pub fn tokenize<'a>(s: &'a str) -> (r: Vec<&'a str>)
    ensures
        r.deep_view() == tokens_of(s@),
        forall|i: int| 0 <= i < r@.len() ==> r@[i]@.len() >= 1,
{
    let n = s.unicode_len();
    let mut out: Vec<&'a str> = Vec::new();
    let mut i: usize = 0;
    proof {
        assert(out.deep_view() =~= Seq::<Seq<char>>::empty());
        assert(s@.subrange(0, n as int) =~= s@);
    }
    while i < n
        invariant
            0 <= i <= n,
            n == s@.len(),
            tokens_of(s@) == out.deep_view() + tokens_of(s@.subrange(i as int, n as int)),
            forall|k: int| 0 <= k < out@.len() ==> out@[k]@.len() >= 1,
        decreases n - i,
    {
        let c = s.get_char(i);
        if is_space_char(c) {
            proof {
                let rest = s@.subrange(i as int, n as int);
                assert(rest[0] == s@[i as int]);
                assert(rest.drop_first() =~= s@.subrange(i as int + 1, n as int));
            }
            i = i + 1;
        } else {
            let start = i;
            i = i + 1;
            while i < n && !is_space_char(s.get_char(i))
                invariant
                    0 <= start < i <= n,
                    n == s@.len(),
                    forall|j: int| start <= j < i ==> !is_space(#[trigger] s@[j]),
                decreases n - i,
            {
                i = i + 1;
            }
            let tok = s.substring_char(start, i);
            proof {
                let rest = s@.subrange(start as int, n as int);
                assert forall|j: int| 0 <= j < i - start implies !is_space(#[trigger] rest[j]) by {
                    assert(rest[j] == s@[start + j]);
                }
                if (i as int) < n {
                    assert(rest[i - start] == s@[i as int]);
                }
                lemma_first_sep_at(rest, i - start);
                assert(rest.subrange(0, i - start) =~= s@.subrange(start as int, i as int));
                assert(rest.subrange(i - start, rest.len() as int) =~= s@.subrange(
                    i as int,
                    n as int,
                ));
                assert(tokens_of(rest) == seq![tok@] + tokens_of(s@.subrange(i as int, n as int)));
            }
            let ghost old_dv = out.deep_view();
            out.push(tok);
            proof {
                assert(out.deep_view() =~= old_dv.push(tok@));
                assert(out.deep_view() + tokens_of(s@.subrange(i as int, n as int)) =~= old_dv + (
                seq![tok@] + tokens_of(s@.subrange(i as int, n as int))));
            }
        }
    }
    proof {
        assert(s@.subrange(n as int, n as int) =~= Seq::<char>::empty());
        assert(tokens_of(Seq::<char>::empty()) == Seq::<Seq<char>>::empty());
        assert(out.deep_view() + Seq::<Seq<char>>::empty() =~= out.deep_view());
    }
    out
}

/// The side denoted by a token: `B` or `S`.
pub open spec fn side_of_token(t: Seq<char>) -> Option<OrderSide> {
    if t == seq!['B'] {
        Some(OrderSide::Bid)
    } else if t == seq!['S'] {
        Some(OrderSide::Ask)
    } else {
        None
    }
}

/// Parses a side token.
pub fn parse_side(t: &str) -> (r: Result<OrderSide, InputError>)
    ensures
        match r {
            Ok(side) => side_of_token(t@) == Some(side),
            Err(e) => side_of_token(t@) is None && e == InputError::MalformedSide,
        },
{
    let n = t.unicode_len();
    if n == 1 {
        let c = t.get_char(0);
        if c == 'B' {
            assert(t@ =~= seq!['B']);
            return Ok(OrderSide::Bid);
        }
        if c == 'S' {
            assert(t@ =~= seq!['S']);
            return Ok(OrderSide::Ask);
        }
        assert(t@ != seq!['B'] && t@ != seq!['S']) by {
            assert(t@[0] == c);
        }
        return Err(InputError::MalformedSide);
    }
    assert(t@ != seq!['B'] && t@ != seq!['S']) by {
        assert(seq!['B'].len() == 1 && seq!['S'].len() == 1);
    }
    Err(InputError::MalformedSide)
}

/// An order reduction: `<ts> R <id> <size>`.
#[derive(Copy, Clone, Debug, PartialEq, Eq, Structural)]
pub struct ReduceOrder {
    /// When the event happened.
    pub timestamp: i64,
    /// The hash of the id of the order being reduced.
    pub id: u64,
    /// How many shares to take away; at least one.
    pub size: i64,
}

/// What `ReduceOrder::new` returns on a token list.
pub open spec fn reduce_result_spec(toks: Seq<Seq<char>>) -> Result<ReduceOrder, InputError> {
    if toks.len() < 4 {
        Err(InputError::MalformedEvent)
    } else if parse_i64_spec(toks[0]) is None {
        Err(InputError::MalformedEvent)
    } else if parse_i64_spec(toks[3]) is None || parse_i64_spec(toks[3]).unwrap() < 1 {
        Err(InputError::MalformedEvent)
    } else {
        Ok(
            ReduceOrder {
                timestamp: parse_i64_spec(toks[0]).unwrap(),
                id: fnv64_of(toks[2]),
                size: parse_i64_spec(toks[3]).unwrap(),
            },
        )
    }
}

impl ReduceOrder {
    /// Builds a reduce event from the tokens of a line, rejecting a line
    /// with fewer than four tokens or with a timestamp or size that does
    /// not parse; the size must be at least one.
    pub fn new(input_vec: Vec<&str>) -> (r: Result<ReduceOrder, InputError>)
        ensures
            r == reduce_result_spec(input_vec.deep_view()),
    {
        let ghost toks = input_vec.deep_view();
        if input_vec.len() < 4 {
            return Err(InputError::MalformedEvent);
        }
        proof {
            assert(toks[0] == input_vec@[0]@);
            assert(toks[2] == input_vec@[2]@);
            assert(toks[3] == input_vec@[3]@);
        }
        let t0 = input_vec[0];
        let ts = match parse_i64_whole(t0) {
            Some(v) => v,
            None => {
                return Err(InputError::MalformedEvent);
            },
        };
        let t3 = input_vec[3];
        let size = match parse_i64_whole(t3) {
            Some(v) => v,
            None => {
                return Err(InputError::MalformedEvent);
            },
        };
        if size < 1 {
            return Err(InputError::MalformedEvent);
        }
        let id = hash(input_vec[2]);
        Ok(ReduceOrder { timestamp: ts, id, size })
    }
}

/// Parses a whole token as a signed decimal number.
pub fn parse_i64_whole(t: &str) -> (r: Option<i64>)
    ensures
        r == parse_i64_spec(t@),
{
    let r = parse_i64_range(t, 0, t.unicode_len());
    proof {
        assert(t@.subrange(0, t@.len() as int) =~= t@);
    }
    r
}

/// A limit-order addition: `<ts> A <id> <B|S> <price> <size>`.
#[derive(Copy, Clone, Debug, PartialEq, Eq, Structural)]
pub struct LimitOrder {
    /// When the event happened.
    pub timestamp: i64,
    /// The hash of the order's id string.
    pub id: u64,
    /// Which side of the book the order joins.
    pub side: OrderSide,
    /// The limit price.
    pub price: Amount,
    /// How many shares the order adds; at least one.
    pub size: i64,
}

/// What `LimitOrder::new` returns on a token list.
pub open spec fn limit_result_spec(toks: Seq<Seq<char>>) -> Result<LimitOrder, InputError> {
    if toks.len() < 6 {
        Err(InputError::MalformedEvent)
    } else if parse_i64_spec(toks[0]) is None {
        Err(InputError::MalformedEvent)
    } else if side_of_token(toks[3]) is None {
        Err(InputError::MalformedSide)
    } else if money_val(toks[4]) is None {
        Err(InputError::MalformedPrice)
    } else if parse_i64_spec(toks[5]) is None || parse_i64_spec(toks[5]).unwrap() < 1 {
        Err(InputError::MalformedEvent)
    } else {
        Ok(
            LimitOrder {
                timestamp: parse_i64_spec(toks[0]).unwrap(),
                id: fnv64_of(toks[2]),
                side: side_of_token(toks[3]).unwrap(),
                price: Amount { as_int: money_val(toks[4]).unwrap() },
                size: parse_i64_spec(toks[5]).unwrap(),
            },
        )
    }
}

impl LimitOrder {
    /// Builds an add event from the tokens of a line, rejecting a line
    /// with fewer than six tokens or any field that does not parse: the
    /// timestamp and size as signed integers with the size at least one,
    /// the side as `B` or `S`, and the price as a decimal with at most two
    /// fractional digits.
    pub fn new(input_vec: Vec<&str>) -> (r: Result<LimitOrder, InputError>)
        ensures
            r == limit_result_spec(input_vec.deep_view()),
    {
        let ghost toks = input_vec.deep_view();
        if input_vec.len() < 6 {
            return Err(InputError::MalformedEvent);
        }
        proof {
            assert(toks[0] == input_vec@[0]@);
            assert(toks[2] == input_vec@[2]@);
            assert(toks[3] == input_vec@[3]@);
            assert(toks[4] == input_vec@[4]@);
            assert(toks[5] == input_vec@[5]@);
        }
        let ts = match parse_i64_whole(input_vec[0]) {
            Some(v) => v,
            None => {
                return Err(InputError::MalformedEvent);
            },
        };
        let side = match parse_side(input_vec[3]) {
            Ok(side) => side,
            Err(e) => {
                return Err(e);
            },
        };
        let price = match Amount::new_from_str(input_vec[4]) {
            Ok(a) => a,
            Err(e) => {
                return Err(e);
            },
        };
        let size = match parse_i64_whole(input_vec[5]) {
            Some(v) => v,
            None => {
                return Err(InputError::MalformedEvent);
            },
        };
        if size < 1 {
            return Err(InputError::MalformedEvent);
        }
        let id = hash(input_vec[2]);
        Ok(LimitOrder { timestamp: ts, id, side, price, size })
    }
}

} // verus!
