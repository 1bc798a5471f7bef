//! Decimal digit strings: the mathematical model of parsing and rendering
//! non-negative integers in base ten, verified executable parsers for `u64`
//! and `i64`, and a verified renderer.

use vstd::prelude::*;

verus! {

/// Characters that separate tokens on an input line.
pub open spec fn is_space(c: char) -> bool {
    c == ' ' || c == '\t' || c == '\r' || c == '\n'
}

/// The value of a decimal digit character; 10 for anything else.
pub open spec fn digit_val(c: char) -> int {
    if c == '0' {
        0
    } else if c == '1' {
        1
    } else if c == '2' {
        2
    } else if c == '3' {
        3
    } else if c == '4' {
        4
    } else if c == '5' {
        5
    } else if c == '6' {
        6
    } else if c == '7' {
        7
    } else if c == '8' {
        8
    } else if c == '9' {
        9
    } else {
        10
    }
}

/// Whether `c` is a decimal digit.
pub open spec fn is_digit(c: char) -> bool {
    digit_val(c) < 10
}

/// The digit character for a value in `0 ..= 9`; `'9'` for anything above.
pub open spec fn digit_char(d: int) -> char {
    if d == 0 {
        '0'
    } else if d == 1 {
        '1'
    } else if d == 2 {
        '2'
    } else if d == 3 {
        '3'
    } else if d == 4 {
        '4'
    } else if d == 5 {
        '5'
    } else if d == 6 {
        '6'
    } else if d == 7 {
        '7'
    } else if d == 8 {
        '8'
    } else {
        '9'
    }
}

/// Whether every character of `s` is a decimal digit.
pub open spec fn all_digits(s: Seq<char>) -> bool {
    forall|i: int| 0 <= i < s.len() ==> is_digit(#[trigger] s[i])
}

/// The number denoted by a digit string, most significant digit first.
/// The empty string denotes 0.
pub open spec fn digits_val(s: Seq<char>) -> int
    decreases s.len(),
{
    if s.len() == 0 {
        0
    } else {
        digits_val(s.drop_last()) * 10 + digit_val(s.last())
    }
}

/// The canonical digit string of a non-negative number: no leading zero
/// except for the single digit `"0"` itself.
pub open spec fn to_digits(n: int) -> Seq<char>
    decreases n,
{
    if n < 10 {
        seq![digit_char(n)]
    } else {
        to_digits(n / 10) + seq![digit_char(n % 10)]
    }
}

/// A digit string in canonical form: non-empty, and without a leading zero
/// unless it is exactly `"0"`.
pub open spec fn canonical_digits(s: Seq<char>) -> bool {
    &&& s.len() >= 1
    &&& all_digits(s)
    &&& (s.len() == 1 || s[0] != '0')
}

pub proof fn lemma_digit_char_val(d: int)
    requires
        0 <= d < 10,
    ensures
        digit_val(digit_char(d)) == d,
        is_digit(digit_char(d)),
{
}

pub proof fn lemma_digit_val_char(c: char)
    requires
        is_digit(c),
    ensures
        digit_char(digit_val(c)) == c,
{
}

pub proof fn lemma_digits_val_nonneg(s: Seq<char>)
    requires
        all_digits(s),
    ensures
        digits_val(s) >= 0,
    decreases s.len(),
{
    if s.len() > 0 {
        assert(all_digits(s.drop_last()));
        lemma_digits_val_nonneg(s.drop_last());
    }
}

pub proof fn lemma_digits_val_pos(s: Seq<char>)
    requires
        all_digits(s),
        s.len() >= 1,
        s[0] != '0',
    ensures
        digits_val(s) >= 1,
    decreases s.len(),
{
    if s.len() == 1 {
        assert(digits_val(s.drop_last()) == 0);
    } else {
        assert(all_digits(s.drop_last()));
        assert(s.drop_last()[0] == s[0]);
        lemma_digits_val_pos(s.drop_last());
    }
}

/// Extending a digit string by one digit multiplies its value by ten and
/// adds the digit.
pub proof fn lemma_digits_val_push(s: Seq<char>, c: char)
    ensures
        digits_val(s.push(c)) == digits_val(s) * 10 + digit_val(c),
{
    assert(s.push(c).drop_last() =~= s);
    assert(s.push(c).last() == c);
}

/// The value of a prefix never exceeds the value of the whole digit string.
pub proof fn lemma_digits_val_prefix_le(s: Seq<char>, i: int)
    requires
        all_digits(s),
        0 <= i <= s.len(),
    ensures
        digits_val(s.subrange(0, i)) <= digits_val(s),
    decreases s.len() - i,
{
    if i < s.len() {
        let p = s.subrange(0, i);
        let q = s.subrange(0, i + 1);
        assert(q.drop_last() =~= p);
        assert(all_digits(p));
        lemma_digits_val_nonneg(p);
        assert(digits_val(q) == digits_val(p) * 10 + digit_val(q.last()));
        assert(digits_val(p) * 10 >= digits_val(p));
        lemma_digits_val_prefix_le(s, i + 1);
    } else {
        assert(s.subrange(0, i) =~= s);
    }
}

pub proof fn lemma_to_digits_wf(n: int)
    requires
        n >= 0,
    ensures
        to_digits(n).len() >= 1,
        all_digits(to_digits(n)),
        n >= 1 ==> to_digits(n)[0] != '0',
        n < 10 ==> to_digits(n).len() == 1,
    decreases n,
{
    if n < 10 {
        lemma_digit_char_val(n);
    } else {
        lemma_to_digits_wf(n / 10);
        lemma_digit_char_val(n % 10);
        let t = to_digits(n / 10);
        assert(to_digits(n) == t + seq![digit_char(n % 10)]);
        assert(to_digits(n)[0] == t[0]);
        assert forall|i: int| 0 <= i < to_digits(n).len() implies is_digit(
            #[trigger] to_digits(n)[i],
        ) by {
            if i < t.len() {
                assert(to_digits(n)[i] == t[i]);
            } else {
                assert(to_digits(n)[i] == digit_char(n % 10));
            }
        }
    }
}

/// Rendering a number and reading it back gives the number.
pub proof fn lemma_digits_val_to_digits(n: int)
    requires
        n >= 0,
    ensures
        digits_val(to_digits(n)) == n,
    decreases n,
{
    if n < 10 {
        lemma_digit_char_val(n);
        assert(to_digits(n).drop_last() =~= Seq::<char>::empty());
        assert(digits_val(Seq::<char>::empty()) == 0);
        assert(to_digits(n).last() == digit_char(n));
    } else {
        lemma_digits_val_to_digits(n / 10);
        lemma_digit_char_val(n % 10);
        let t = to_digits(n / 10);
        assert(to_digits(n) =~= t.push(digit_char(n % 10)));
        lemma_digits_val_push(t, digit_char(n % 10));
    }
}

/// Reading a canonical digit string and rendering the value gives the
/// string back.
pub proof fn lemma_to_digits_of_val(s: Seq<char>)
    requires
        canonical_digits(s),
    ensures
        to_digits(digits_val(s)) == s,
    decreases s.len(),
{
    let v = digits_val(s);
    if s.len() == 1 {
        assert(s.drop_last() =~= Seq::<char>::empty());
        assert(digits_val(Seq::<char>::empty()) == 0);
        assert(s.last() == s[0]);
        assert(v == digit_val(s[0]));
        lemma_digit_val_char(s[0]);
        assert(to_digits(v) =~= s);
    } else {
        let b = s.drop_last();
        assert(all_digits(b));
        assert(b[0] == s[0]);
        lemma_digits_val_pos(b);
        lemma_digits_val_nonneg(b);
        assert(v == digits_val(b) * 10 + digit_val(s.last()));
        assert(v >= 10);
        assert(v / 10 == digits_val(b)) by {
            assert(0 <= digit_val(s.last()) < 10);
        }
        assert(v % 10 == digit_val(s.last()));
        lemma_to_digits_of_val(b);
        lemma_digit_val_char(s.last());
        assert(to_digits(v) == to_digits(digits_val(b)) + seq![digit_char(v % 10)]);
        assert(to_digits(v) =~= s);
    }
}

/// The `u64` denoted by a digit string, if the string is non-empty, all
/// digits, and in range.
pub open spec fn parse_u64_spec(s: Seq<char>) -> Option<u64> {
    if s.len() >= 1 && all_digits(s) && digits_val(s) <= u64::MAX {
        Some(digits_val(s) as u64)
    } else {
        None
    }
}

/// The `i64` denoted by an optionally `-`-signed digit string, if in range.
pub open spec fn parse_i64_spec(s: Seq<char>) -> Option<i64> {
    if s.len() >= 2 && s[0] == '-' {
        let t = s.subrange(1, s.len() as int);
        if all_digits(t) && digits_val(t) <= 0x8000000000000000 {
            Some((-digits_val(t)) as i64)
        } else {
            None
        }
    } else if s.len() >= 1 && all_digits(s) && digits_val(s) <= i64::MAX {
        Some(digits_val(s) as i64)
    } else {
        None
    }
}

/// The digit value of `c`, or 10 when `c` is not a digit.
pub fn digit_of(c: char) -> (d: u64)
    ensures
        d == digit_val(c),
{
    if c == '0' {
        0
    } else if c == '1' {
        1
    } else if c == '2' {
        2
    } else if c == '3' {
        3
    } else if c == '4' {
        4
    } else if c == '5' {
        5
    } else if c == '6' {
        6
    } else if c == '7' {
        7
    } else if c == '8' {
        8
    } else if c == '9' {
        9
    } else {
        10
    }
}

/// Parses the character range `[from, to)` of `s` as an unsigned decimal
/// number.
pub fn parse_u64_range(s: &str, from: usize, to: usize) -> (r: Option<u64>)
    requires
        from <= to <= s@.len(),
    ensures
        r == parse_u64_spec(s@.subrange(from as int, to as int)),
{
    let ghost t = s@.subrange(from as int, to as int);
    if from == to {
        return None;
    }
    let mut acc: u64 = 0;
    let mut i: usize = from;
    while i < to
        invariant
            from <= i <= to <= s@.len(),
            t == s@.subrange(from as int, to as int),
            all_digits(t.subrange(0, i - from)),
            acc == digits_val(t.subrange(0, i - from)),
        decreases to - i,
    {
        let c = s.get_char(i);
        assert(c == t[i - from]);
        let d = digit_of(c);
        if d >= 10 {
            assert(!is_digit(t[i - from]));
            return None;
        }
        let ghost p = t.subrange(0, i - from);
        let ghost q = t.subrange(0, i - from + 1);
        proof {
            assert(q.drop_last() =~= p);
            assert(q.last() == t[i - from]);
            lemma_digits_val_nonneg(p);
        }
        let wide: u128 = (acc as u128) * 10 + (d as u128);
        assert(wide == digits_val(q));
        if wide > u64::MAX as u128 {
            proof {
                if all_digits(t) {
                    lemma_digits_val_prefix_le(t, i - from + 1);
                }
            }
            return None;
        }
        acc = wide as u64;
        i = i + 1;
    }
    assert(t.subrange(0, to - from) =~= t);
    Some(acc)
}

/// Parses the character range `[from, to)` of `s` as a signed decimal
/// number.
pub fn parse_i64_range(s: &str, from: usize, to: usize) -> (r: Option<i64>)
    requires
        from <= to <= s@.len(),
    ensures
        r == parse_i64_spec(s@.subrange(from as int, to as int)),
{
    let ghost t = s@.subrange(from as int, to as int);
    if from == to {
        return None;
    }
    let c = s.get_char(from);
    assert(t[0] == c);
    if c == '-' {
        if from + 1 == to {
            assert(!is_digit(t[0]));
            assert(!all_digits(t));
            return None;
        }
        assert(t.len() >= 2);
        let m = parse_u64_range(s, from + 1, to);
        assert(s@.subrange(from as int + 1, to as int) =~= t.subrange(1, t.len() as int));
        match m {
            None => {
                proof {
                    let u = t.subrange(1, t.len() as int);
                    if all_digits(u) {
                        lemma_digits_val_nonneg(u);
                    }
                }
                None
            },
            Some(v) => {
                proof {
                    let u = t.subrange(1, t.len() as int);
                    lemma_digits_val_nonneg(u);
                }
                if v <= 0x8000000000000000u64 {
                    if v <= i64::MAX as u64 {
                        Some(-(v as i64))
                    } else {
                        Some(i64::MIN)
                    }
                } else {
                    None
                }
            },
        }
    } else {
        let m = parse_u64_range(s, from, to);
        assert(s@.subrange(from as int, to as int) =~= t);
        match m {
            None => None,
            Some(v) => {
                proof {
                    if all_digits(t) {
                        lemma_digits_val_nonneg(t);
                    }
                }
                if v <= i64::MAX as u64 {
                    Some(v as i64)
                } else {
                    None
                }
            },
        }
    }
}

/// Appends one digit character to `out`.
pub(crate) fn push_digit(out: &mut String, d: u64)
    requires
        d < 10,
    ensures
        final(out)@ == old(out)@ + seq![digit_char(d as int)],
{
    proof {
        reveal_strlit("0");
        reveal_strlit("1");
        reveal_strlit("2");
        reveal_strlit("3");
        reveal_strlit("4");
        reveal_strlit("5");
        reveal_strlit("6");
        reveal_strlit("7");
        reveal_strlit("8");
        reveal_strlit("9");
    }
    if d == 0 {
        out.append("0");
    } else if d == 1 {
        out.append("1");
    } else if d == 2 {
        out.append("2");
    } else if d == 3 {
        out.append("3");
    } else if d == 4 {
        out.append("4");
    } else if d == 5 {
        out.append("5");
    } else if d == 6 {
        out.append("6");
    } else if d == 7 {
        out.append("7");
    } else if d == 8 {
        out.append("8");
    } else {
        out.append("9");
    }
    proof {
        assert(out@ =~= old(out)@ + seq![digit_char(d as int)]);
    }
}

/// Appends the canonical decimal rendering of `n` to `out`.
pub fn append_u64(out: &mut String, n: u64)
    ensures
        final(out)@ == old(out)@ + to_digits(n as int),
    decreases n,
{
    if n >= 10 {
        append_u64(out, n / 10);
        push_digit(out, n % 10);
        proof {
            assert(old(out)@ + to_digits(n as int) =~= (old(out)@ + to_digits(n as int / 10))
                + seq![digit_char(n as int % 10)]);
        }
    } else {
        push_digit(out, n);
    }
}

/// The rendering of a signed number: a `-` sign for negative values,
/// then the canonical digits of the magnitude.
pub open spec fn i64_digits(n: int) -> Seq<char> {
    if n < 0 {
        seq!['-'] + to_digits(-n)
    } else {
        to_digits(n)
    }
}

/// Appends the decimal rendering of the signed number `n` to `out`.
pub fn append_i64(out: &mut String, n: i64)
    ensures
        final(out)@ == old(out)@ + i64_digits(n as int),
{
    if n < 0 {
        proof {
            reveal_strlit("-");
        }
        out.append("-");
        assert(out@ =~= old(out)@ + seq!['-']);
        let m: u64 = if n == i64::MIN {
            0x8000000000000000u64
        } else {
            (-n) as u64
        };
        append_u64(out, m);
        proof {
            assert(out@ =~= old(out)@ + i64_digits(n as int));
        }
    } else {
        append_u64(out, n as u64);
    }
}

} // verus!
