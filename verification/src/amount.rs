//! The money scalar: a non-negative fixed-point decimal with two fractional
//! digits, held exactly as a count of hundredths.

use vstd::prelude::*;

use crate::decimal::{
    all_digits, append_u64, canonical_digits, digit_char, digit_val, digits_val, is_digit,
    lemma_digit_char_val, lemma_digit_val_char, lemma_digits_val_nonneg,
    lemma_digits_val_to_digits, lemma_to_digits_of_val, lemma_to_digits_wf, parse_u64_range,
    push_digit, to_digits,
};
use crate::errors::InputError;

verus! {

/// A money amount in hundredths of the major unit, e.g. `4412` for `44.12`.
#[derive(Copy, Clone, Debug, PartialEq, Eq, PartialOrd, Ord, Hash, Structural)]
pub struct Amount {
    /// The amount scaled by one hundred.
    pub as_int: u64,
}

/// The index of the first `'.'` in `s`, or `s.len()` when there is none.
pub open spec fn dot_index(s: Seq<char>) -> int
    decreases s.len(),
{
    if s.len() == 0 {
        0
    } else if s[0] == '.' {
        0
    } else {
        1 + dot_index(s.drop_first())
    }
}

pub proof fn lemma_dot_index_at(s: Seq<char>, k: int)
    requires
        0 <= k <= s.len(),
        k < s.len() ==> s[k] == '.',
        forall|j: int| 0 <= j < k ==> s[j] != '.',
    ensures
        dot_index(s) == k,
    decreases s.len(),
{
    if s.len() == 0 {
    } else if s[0] == '.' {
        assert(k == 0);
    } else {
        assert(k >= 1);
        let t = s.drop_first();
        assert forall|j: int| 0 <= j < k - 1 implies t[j] != '.' by {
            assert(t[j] == s[j + 1]);
        }
        assert(k - 1 < t.len() ==> t[k - 1] == s[k]);
        lemma_dot_index_at(t, k - 1);
    }
}

/// The value in hundredths denoted by a price string: an integer part, and
/// optionally a dot followed by one or two fractional digits. `None` for
/// any other shape, and for values out of range.
pub open spec fn money_val(s: Seq<char>) -> Option<u64> {
    let k = dot_index(s);
    if k == s.len() {
        if s.len() >= 1 && all_digits(s) && digits_val(s) * 100 <= u64::MAX {
            Some((digits_val(s) * 100) as u64)
        } else {
            None
        }
    } else {
        let ip = s.subrange(0, k);
        let fp = s.subrange(k + 1, s.len() as int);
        if ip.len() >= 1 && all_digits(ip) && 1 <= fp.len() <= 2 && all_digits(fp)
            && digits_val(ip) * 100 + frac_val(fp) <= u64::MAX {
            Some((digits_val(ip) * 100 + frac_val(fp)) as u64)
        } else {
            None
        }
    }
}

/// The value in hundredths of a fractional part of one or two digits.
pub open spec fn frac_val(fp: Seq<char>) -> int {
    if fp.len() == 1 {
        digit_val(fp[0]) * 10
    } else {
        digits_val(fp)
    }
}

/// The rendering of a value in hundredths: the integer part, a dot, and
/// exactly two fractional digits, the first zero-padded when needed.
pub open spec fn money_str(v: int) -> Seq<char> {
    to_digits(v / 100) + seq!['.'] + seq![digit_char((v % 100) / 10), digit_char((v % 100) % 10)]
}

/// A price string of the shape `digits.dd`: a canonical integer part, a
/// dot, and exactly two fractional digits.
pub open spec fn canonical_money_str(s: Seq<char>) -> bool {
    &&& s.len() >= 4
    &&& s[s.len() - 3] == '.'
    &&& canonical_digits(s.subrange(0, s.len() - 3))
    &&& all_digits(s.subrange(s.len() - 2, s.len() as int))
}

impl Amount {
    /// The zero amount.
    pub fn new() -> (r: Self)
        ensures
            r.as_int == 0,
    {
        Amount { as_int: 0 }
    }

    /// Parses a decimal price string with at most two fractional digits.
    pub fn new_from_str(input_string: &str) -> (r: Result<Self, InputError>)
        ensures
            match r {
                Ok(a) => money_val(input_string@) == Some(a.as_int),
                Err(e) => money_val(input_string@) is None && e == InputError::MalformedPrice,
            },
    {
        match parse_money_range(input_string, 0, input_string.unicode_len()) {
            Some(v) => {
                assert(input_string@.subrange(0, input_string@.len() as int) =~= input_string@);
                Ok(Amount { as_int: v })
            },
            None => {
                assert(input_string@.subrange(0, input_string@.len() as int) =~= input_string@);
                Err(InputError::MalformedPrice)
            },
        }
    }

    /// Adds another amount in place.
    pub fn add_assign(&mut self, other_amount: Self)
        requires
            old(self).as_int + other_amount.as_int <= u64::MAX,
        ensures
            final(self).as_int == old(self).as_int + other_amount.as_int,
    {
        self.as_int = self.as_int + other_amount.as_int;
    }

    /// Scales the amount in place by a non-negative integer quantity.
    pub fn mul_assign(&mut self, multiplier: i64)
        requires
            multiplier >= 0,
            old(self).as_int * multiplier <= u64::MAX,
        ensures
            final(self).as_int == old(self).as_int * multiplier,
    {
        self.as_int = self.as_int * (multiplier as u64);
    }

    /// The amount scaled by a non-negative integer quantity.
    pub fn mul(self, rhs: i64) -> (r: Self)
        requires
            rhs >= 0,
            self.as_int * rhs <= u64::MAX,
        ensures
            r.as_int == self.as_int * rhs,
    {
        Amount { as_int: self.as_int * (rhs as u64) }
    }

    /// Renders the amount as `integer.dd`, always with exactly two
    /// fractional digits.
    pub fn render(&self) -> (r: String)
        ensures
            r@ == money_str(self.as_int as int),
    {
        let mut out = String::new();
        append_u64(&mut out, self.as_int / 100);
        proof {
            reveal_strlit(".");
        }
        out.append(".");
        let rem = self.as_int % 100;
        push_digit(&mut out, rem / 10);
        push_digit(&mut out, rem % 10);
        proof {
            assert(out@ =~= money_str(self.as_int as int));
        }
        out
    }
}

/// Parses the character range `[from, to)` of `s` as a price string.
pub fn parse_money_range(s: &str, from: usize, to: usize) -> (r: Option<u64>)
    requires
        from <= to <= s@.len(),
    ensures
        r == money_val(s@.subrange(from as int, to as int)),
{
    let ghost t = s@.subrange(from as int, to as int);
    let mut k: usize = from;
    while k < to && s.get_char(k) != '.'
        invariant
            from <= k <= to <= s@.len(),
            t == s@.subrange(from as int, to as int),
            forall|j: int| 0 <= j < k - from ==> t[j] != '.',
        decreases to - k,
    {
        assert(s@[k as int] == t[k - from]);
        k = k + 1;
    }
    proof {
        if k < to {
            assert(t[k - from] == s@[k as int]);
        }
        lemma_dot_index_at(t, k - from);
    }
    if k == to {
        // no fractional part
        match parse_u64_range(s, from, to) {
            None => {
                proof {
                    if t.len() >= 1 && all_digits(t) {
                        lemma_digits_val_nonneg(t);
                    }
                }
                None
            },
            Some(v) => {
                proof {
                    lemma_digits_val_nonneg(t);
                }
                let wide: u128 = (v as u128) * 100;
                if wide > u64::MAX as u128 {
                    None
                } else {
                    Some(wide as u64)
                }
            },
        }
    } else {
        let ghost ip = t.subrange(0, k - from);
        let ghost fp = t.subrange(k - from + 1, t.len() as int);
        if k == from {
            // empty integer part
            assert(ip.len() == 0);
            return None;
        }
        if to - k - 1 < 1 || to - k - 1 > 2 {
            return None;
        }
        let ipr = parse_u64_range(s, from, k);
        assert(s@.subrange(from as int, k as int) =~= ip);
        let fpr = parse_u64_range(s, k + 1, to);
        assert(s@.subrange(k as int + 1, to as int) =~= fp);
        match (ipr, fpr) {
            (Some(iv), Some(fv)) => {
                proof {
                    lemma_digits_val_nonneg(ip);
                    lemma_digits_val_nonneg(fp);
                    if fp.len() == 1 {
                        assert(fp.drop_last() =~= Seq::<char>::empty());
                        assert(digits_val(Seq::<char>::empty()) == 0);
                        assert(fp.last() == fp[0]);
                        assert(digits_val(fp) == digit_val(fp[0]));
                    }
                }
                let frac: u64 = if to - k - 1 == 1 {
                    fv * 10
                } else {
                    fv
                };
                proof {
                    if fp.len() == 2 {
                        assert(fp.drop_last() =~= seq![fp[0]]);
                        assert(seq![fp[0]].drop_last() =~= Seq::<char>::empty());
                        assert(digits_val(Seq::<char>::empty()) == 0);
                        assert(fp.last() == fp[1]);
                        assert(digits_val(seq![fp[0]]) == digit_val(fp[0]));
                        assert(is_digit(fp[0]));
                        assert(is_digit(fp[1]));
                        assert(digits_val(fp) == digit_val(fp[0]) * 10 + digit_val(fp[1]));
                    }
                    assert(frac == frac_val(fp));
                }
                let wide: u128 = (iv as u128) * 100 + (frac as u128);
                if wide > u64::MAX as u128 {
                    None
                } else {
                    Some(wide as u64)
                }
            },
            _ => {
                proof {
                    if all_digits(ip) {
                        lemma_digits_val_nonneg(ip);
                    }
                    if all_digits(fp) {
                        lemma_digits_val_nonneg(fp);
                        if fp.len() == 1 {
                            assert(fp.drop_last() =~= Seq::<char>::empty());
                            assert(digits_val(Seq::<char>::empty()) == 0);
                            assert(fp.last() == fp[0]);
                        }
                        if fp.len() == 2 {
                            assert(fp.drop_last() =~= seq![fp[0]]);
                            assert(seq![fp[0]].drop_last() =~= Seq::<char>::empty());
                        }
                        assert(frac_val(fp) >= 0);
                    }
                }
                None
            },
        }
    }
}

/// Rendering the parsed value of a price string of the shape `digits.dd`
/// gives the string back, provided the integer part has no leading zero
/// and the value is in range.
pub proof fn lemma_money_round_trip(s: Seq<char>)
    requires
        canonical_money_str(s),
        money_val(s) is Some,
    ensures
        money_str(money_val(s).unwrap() as int) == s,
{
    let n = s.len() as int;
    let ip = s.subrange(0, n - 3);
    let fp = s.subrange(n - 2, n);
    assert(fp.len() == 2);
    assert forall|j: int| 0 <= j < n - 3 implies s[j] != '.' by {
        assert(is_digit(ip[j]));
    }
    lemma_dot_index_at(s, n - 3);
    assert(dot_index(s) == n - 3);
    assert(s.subrange(0, dot_index(s)) =~= ip);
    assert(s.subrange(dot_index(s) + 1, n) =~= fp);
    assert(fp.drop_last() =~= seq![fp[0]]);
    assert(seq![fp[0]].drop_last() =~= Seq::<char>::empty());
    assert(digits_val(Seq::<char>::empty()) == 0);
    assert(fp.last() == fp[1]);
    assert(digits_val(seq![fp[0]]) == digit_val(fp[0]));
    assert(digits_val(fp) == digit_val(fp[0]) * 10 + digit_val(fp[1]));
    assert(is_digit(fp[0]));
    assert(is_digit(fp[1]));
    assert(0 <= digit_val(fp[0]) <= 9);
    assert(0 <= digit_val(fp[1]) <= 9);
    assert(0 <= digits_val(fp) <= 99);
    lemma_digits_val_nonneg(ip);
    assert(frac_val(fp) == digits_val(fp));
    assert(money_val(s) == Some((digits_val(ip) * 100 + digits_val(fp)) as u64));
    assert(digits_val(ip) * 100 + digits_val(fp) <= u64::MAX);
    let v = money_val(s).unwrap() as int;
    assert(v == digits_val(ip) * 100 + digits_val(fp));
    assert(v / 100 == digits_val(ip));
    assert(v % 100 == digits_val(fp));
    lemma_to_digits_of_val(ip);
    assert((v % 100) / 10 == digit_val(fp[0]));
    assert((v % 100) % 10 == digit_val(fp[1]));
    lemma_digit_val_char(fp[0]);
    lemma_digit_val_char(fp[1]);
    assert(money_str(v) =~= s);
}

/// Parsing the rendering of any value gives the value back: `render` is a
/// right inverse of `parse` on every representable amount.
pub proof fn lemma_parse_render_round_trip(v: int)
    requires
        0 <= v <= u64::MAX,
    ensures
        money_val(money_str(v)) == Some(v as u64),
{
    let s = money_str(v);
    let ip = to_digits(v / 100);
    let c0 = digit_char((v % 100) / 10);
    let c1 = digit_char((v % 100) % 10);
    lemma_to_digits_wf(v / 100);
    lemma_digits_val_to_digits(v / 100);
    lemma_digit_char_val((v % 100) / 10);
    lemma_digit_char_val((v % 100) % 10);
    let n = s.len() as int;
    assert(n == ip.len() + 3);
    assert forall|j: int| 0 <= j < ip.len() implies s[j] != '.' by {
        assert(s[j] == ip[j]);
        assert(is_digit(ip[j]));
    }
    assert(s[ip.len() as int] == '.');
    crate::amount::lemma_dot_index_at(s, ip.len() as int);
    assert(s.subrange(0, ip.len() as int) =~= ip);
    let fp = s.subrange(ip.len() as int + 1, n);
    assert(fp =~= seq![c0, c1]);
    assert(fp.drop_last() =~= seq![c0]);
    assert(seq![c0].drop_last() =~= Seq::<char>::empty());
    assert(digits_val(Seq::<char>::empty()) == 0);
    assert(digits_val(seq![c0]) == digit_val(c0));
    assert(digits_val(fp) == digit_val(c0) * 10 + digit_val(c1));
    assert(frac_val(fp) == (v % 100));
    assert(digits_val(ip) * 100 + frac_val(fp) == v);
}

} // verus!
