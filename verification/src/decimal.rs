//! Decimal fields of the wire format: an optional `-`, then ASCII digits.
//!
//! Reading goes through the `atoi` crate; writing is done here. Both are tied
//! to the same mathematical reading of a digit string, so that what is
//! written reads back as the same number.

use vstd::prelude::*;

verus! {

/// ASCII `-`.
pub const MINUS: u8 = 45;

/// ASCII `+`.
pub const PLUS: u8 = 43;

/// ASCII `0`.
pub const ZERO: u8 = 48;

/// True for the ASCII digits `0` to `9`.
pub open spec fn is_digit(b: u8) -> bool {
    48 <= b <= 57
}

/// True when every byte of `s` is an ASCII digit.
pub open spec fn all_digits(s: Seq<u8>) -> bool {
    forall|i: int| 0 <= i < s.len() ==> is_digit(#[trigger] s[i])
}

/// The number that a string of ASCII digits denotes in base ten (0 for the
/// empty string).
pub open spec fn digits_value(s: Seq<u8>) -> nat
    decreases s.len(),
{
    if s.len() == 0 {
        0
    } else {
        (10 * digits_value(s.drop_last()) + (s.last() - 48)) as nat
    }
}

/// True when `s` is a decimal field: an optional `-` followed by at least one
/// digit and nothing else.
pub open spec fn is_decimal(s: Seq<u8>) -> bool {
    if s.len() > 0 && s[0] == MINUS {
        s.len() > 1 && all_digits(s.skip(1))
    } else {
        s.len() > 0 && all_digits(s)
    }
}

/// The integer that a decimal field denotes.
pub open spec fn decimal_value(s: Seq<u8>) -> int {
    if s.len() > 0 && s[0] == MINUS {
        -(digits_value(s.skip(1)) as int)
    } else {
        digits_value(s) as int
    }
}

/// The value of a decimal field as an `i64`: `None` when `s` is no decimal
/// field or denotes a number outside the range of `i64`.
pub open spec fn decimal_i64(s: Seq<u8>) -> Option<i64> {
    if is_decimal(s) && i64::MIN <= decimal_value(s) <= i64::MAX {
        Some(decimal_value(s) as i64)
    } else {
        None
    }
}

/// The digits of `n` in base ten, most significant first, without leading
/// zeros.
pub open spec fn digits_repr(n: nat) -> Seq<u8>
    decreases n,
{
    if n < 10 {
        seq![(48 + n) as u8]
    } else {
        digits_repr(n / 10).push((48 + n % 10) as u8)
    }
}

/// The decimal field that denotes `n`.
pub open spec fn decimal_repr(n: int) -> Seq<u8> {
    if n < 0 {
        seq![MINUS] + digits_repr((-n) as nat)
    } else {
        digits_repr(n as nat)
    }
}

/// How many ASCII digits `s` starts with.
pub open spec fn leading_digits(s: Seq<u8>) -> nat
    decreases s.len(),
{
    if s.len() > 0 && is_digit(s[0]) {
        1 + leading_digits(s.drop_first())
    } else {
        0
    }
}

/// What `atoi::atoi::<i64>` makes of `text`: a sign (`+` or `-`) if the text
/// starts with one, then the digits that follow as far as they go; whatever
/// comes after them is ignored. `None` when neither a sign nor a digit was
/// found, or when the number does not fit an `i64`.
pub open spec fn atoi_value(text: Seq<u8>) -> Option<i64> {
    let sign: nat = if text.len() > 0 && (text[0] == PLUS || text[0] == MINUS) {
        1
    } else {
        0
    };
    let count = leading_digits(text.skip(sign as int));
    let magnitude = digits_value(text.subrange(sign as int, (sign + count) as int));
    let value = if sign == 1 && text[0] == MINUS {
        -(magnitude as int)
    } else {
        magnitude as int
    };
    if sign + count == 0 || value < i64::MIN || value > i64::MAX {
        None
    } else {
        Some(value as i64)
    }
}

/// Calls `atoi::atoi::<i64>`. Trusted: the result is [`atoi_value`] of the
/// text, which restates the crate's `from_radix_10_signed_checked` for `i64`
/// (sign, then digits with overflow checks) and the two cases in which `atoi`
/// itself gives `None`.
#[verifier::external_body]
pub(crate) fn atoi_i64(text: &[u8]) -> (r: Option<i64>)
    ensures
        r == atoi_value(text@),
{
    atoi::atoi::<i64>(text)
}

/// A run of digits is counted whole.
proof fn lemma_leading_digits_all(s: Seq<u8>)
    requires
        all_digits(s),
    ensures
        leading_digits(s) == s.len(),
    decreases s.len(),
{
    if s.len() > 0 {
        let rest = s.drop_first();
        assert forall|i: int| 0 <= i < rest.len() implies is_digit(#[trigger] rest[i]) by {
            assert(rest[i] == s[i + 1]);
        }
        lemma_leading_digits_all(rest);
    }
}

/// On a decimal field, `atoi` returns the field's value, or `None` when it
/// does not fit.
pub proof fn lemma_atoi_on_decimal(s: Seq<u8>)
    requires
        is_decimal(s),
    ensures
        atoi_value(s) == decimal_i64(s),
{
    if s[0] == MINUS {
        let rest = s.skip(1);
        lemma_leading_digits_all(rest);
        assert(s.subrange(1, 1 + rest.len() as int) =~= rest);
    } else {
        assert(is_digit(s[0]));
        assert(s.skip(0) =~= s);
        lemma_leading_digits_all(s);
        assert(s.subrange(0, s.len() as int) =~= s);
    }
}

/// The digits written for `n` are digits, at least one of them, and denote
/// `n`.
pub proof fn lemma_digits_repr(n: nat)
    ensures
        digits_repr(n).len() >= 1,
        all_digits(digits_repr(n)),
        digits_value(digits_repr(n)) == n,
    decreases n,
{
    if n < 10 {
        let s = digits_repr(n);
        assert(s.drop_last() =~= Seq::<u8>::empty());
        assert(digits_value(s.drop_last()) == 0);
    } else {
        lemma_digits_repr(n / 10);
        let head = digits_repr(n / 10);
        let s = digits_repr(n);
        assert(s.drop_last() =~= head);
        assert(s.last() == (48 + n % 10) as u8);
    }
}

/// Every integer's decimal field is a decimal field and denotes that integer;
/// its bytes are digits but for a leading `-` on negative numbers.
pub proof fn lemma_decimal_repr(n: int)
    ensures
        is_decimal(decimal_repr(n)),
        decimal_value(decimal_repr(n)) == n,
        forall|i: int|
            0 <= i < decimal_repr(n).len() ==> is_digit(#[trigger] decimal_repr(n)[i]) || (i == 0
                && n < 0 && decimal_repr(n)[i] == MINUS),
        n >= 0 ==> is_digit(decimal_repr(n)[0]),
{
    if n < 0 {
        let m = (-n) as nat;
        lemma_digits_repr(m);
        let s = decimal_repr(n);
        assert(s.skip(1) =~= digits_repr(m));
        assert(s[0] == MINUS);
        assert forall|i: int| 0 <= i < s.len() implies is_digit(#[trigger] s[i]) || (i == 0 && n
            < 0 && s[i] == MINUS) by {
            if i > 0 {
                assert(s[i] == digits_repr(m)[i - 1]);
            }
        }
    } else {
        lemma_digits_repr(n as nat);
        assert(is_digit(digits_repr(n as nat)[0]));
    }
}

/// Writing then reading a number gives the number back: the decimal field of
/// any `i64` has that `i64` as its value.
pub proof fn lemma_decimal_round_trip(n: i64)
    ensures
        decimal_i64(decimal_repr(n as int)) == Some(n),
{
    lemma_decimal_repr(n as int);
}

/// Tells whether `line` is a decimal field.
pub fn is_decimal_text(line: &[u8]) -> (ok: bool)
    ensures
        ok == is_decimal(line@),
{
    let n: usize = line.len();
    if n == 0 {
        return false;
    }
    let start: usize = if line[0] == MINUS {
        1
    } else {
        0
    };
    if start == n {
        return false;
    }
    let mut i: usize = start;
    while i < n
        invariant
            start <= i <= n,
            n == line@.len(),
            start == (if line@[0] == MINUS { 1usize } else { 0usize }),
            forall|j: int| start <= j < i ==> is_digit(#[trigger] line@[j]),
        decreases n - i,
    {
        let b: u8 = line[i];
        if b < 48 || b > 57 {
            proof {
                assert(!is_digit(line@[i as int]));
                if start == 1 {
                    assert(line@.skip(1)[i - 1] == line@[i as int]);
                }
            }
            return false;
        }
        i += 1;
    }
    proof {
        if start == 1 {
            assert forall|j: int| 0 <= j < line@.skip(1).len() implies is_digit(
                #[trigger] line@.skip(1)[j],
            ) by {
                assert(line@.skip(1)[j] == line@[j + 1]);
            }
        }
    }
    true
}

/// Reads a decimal field: `Some` of its value when `line` is an optional `-`
/// followed by digits only and the number fits an `i64`, `None` otherwise.
pub fn parse_decimal(line: &[u8]) -> (r: Option<i64>)
    ensures
        r == decimal_i64(line@),
{
    if !is_decimal_text(line) {
        return None;
    }
    proof {
        lemma_atoi_on_decimal(line@);
    }
    atoi_i64(line)
}

/// Appends the digits of `value`, most significant first.
pub fn write_digits(out: &mut Vec<u8>, value: u64)
    ensures
        final(out)@ == old(out)@ + digits_repr(value as nat),
    decreases value,
{
    if value >= 10 {
        write_digits(out, value / 10);
    }
    let digit: u8 = (value % 10) as u8;
    out.push(ZERO + digit);
    proof {
        let n = value as nat;
        if n < 10 {
            assert(final(out)@ =~= old(out)@ + digits_repr(n));
        } else {
            assert(final(out)@ =~= old(out)@ + digits_repr(n / 10).push((48 + n % 10) as u8));
        }
    }
}

/// Appends the decimal field of `val`.
pub fn write_decimal(out: &mut Vec<u8>, val: i64)
    ensures
        final(out)@ == old(out)@ + decimal_repr(val as int),
{
    if val < 0 {
        out.push(MINUS);
        let magnitude: u64 = (-(val + 1)) as u64 + 1;
        write_digits(out, magnitude);
        assert(final(out)@ =~= old(out)@ + decimal_repr(val as int));
    } else {
        write_digits(out, val as u64);
    }
}

} // verus!
