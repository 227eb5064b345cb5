//! Infinite rational number.

use crate::text::{chars_of, push_signed_decimal, signed_decimal, string_of};
use num_rational::Rational64;
use vstd::prelude::*;

verus! {

/// Infinite rational number.
///
/// A finite number is kept as a numerator and a denominator in lowest terms,
/// the denominator above zero.
#[derive(Debug, Hash, Clone, Copy, PartialEq, Eq, Structural)]
pub enum Rational {
    /// Negative infnity, smaller than all other values
    NegativeInfinity,
    /// A finite number: numerator and denominator
    Value(i64, i64),
    /// Positive infnity, greater than all other values
    PositiveInfinity,
}

/// What can go wrong with rational numbers.
#[derive(Debug, Hash, Clone, Copy, PartialEq, Eq, Structural)]
pub enum RationalError {
    /// The text is no rational number, or its denominator is zero.
    InvalidRational,
    /// The operation has no value: an infinity was added to or taken from
    /// an infinity, or a number was divided by zero.
    ArithmeticUndefined,
    /// A number is beyond the limits within which the operation is done.
    Overflow,
}

/// No number above one divides both `n` and `d`.
pub open spec fn lowest_terms(n: int, d: int) -> bool {
    forall|k: int| k > 1 ==> !(#[trigger] (n % k) == 0 && d % k == 0)
}

/// The limit on numerators and denominators within which sums, products and
/// quotients are worked out.
pub const LIMIT: i64 = 0x8000_0000;

/// `n` and `d` are within the limit for operations.
pub open spec fn within_limit(n: int, d: int) -> bool {
    -0x8000_0000 < n < 0x8000_0000 && 0 < d < 0x8000_0000
}

/// The fraction `n / d` in lowest terms.
///
/// Trusted: this is `num_rational::Ratio::new` for `i64`, which divides
/// both parts by their greatest common divisor and keeps the denominator
/// positive. With a denominator above zero it does not panic.
#[verifier::external_body]
fn ratio_new(n: i64, d: i64) -> (r: (i64, i64))
    requires
        d > 0,
    ensures
        r.1 > 0,
        r.0 * d == n * r.1,
        lowest_terms(r.0 as int, r.1 as int),
{
    let q = Rational64::new(n, d);
    (*q.numer(), *q.denom())
}

/// The sum of two fractions, in lowest terms.
///
/// Trusted: this is the `+` of `num_rational::Ratio<i64>`, which brings both
/// fractions to the least common denominator, adds the numerators and
/// reduces. Within the limit none of its products overflows.
#[verifier::external_body]
fn ratio_add(an: i64, ad: i64, bn: i64, bd: i64) -> (r: (i64, i64))
    requires
        within_limit(an as int, ad as int),
        within_limit(bn as int, bd as int),
    ensures
        r.1 > 0,
        r.0 * (ad * bd) == (an * bd + bn * ad) * r.1,
        lowest_terms(r.0 as int, r.1 as int),
{
    let q = Rational64::new_raw(an, ad) + Rational64::new_raw(bn, bd);
    (*q.numer(), *q.denom())
}

/// The difference of two fractions, in lowest terms.
///
/// Trusted: this is the `-` of `num_rational::Ratio<i64>`, which works as
/// its `+` does. Within the limit none of its products overflows.
#[verifier::external_body]
fn ratio_sub(an: i64, ad: i64, bn: i64, bd: i64) -> (r: (i64, i64))
    requires
        within_limit(an as int, ad as int),
        within_limit(bn as int, bd as int),
    ensures
        r.1 > 0,
        r.0 * (ad * bd) == (an * bd - bn * ad) * r.1,
        lowest_terms(r.0 as int, r.1 as int),
{
    let q = Rational64::new_raw(an, ad) - Rational64::new_raw(bn, bd);
    (*q.numer(), *q.denom())
}

/// The product of two fractions, in lowest terms.
///
/// Trusted: this is the `*` of `num_rational::Ratio<i64>`, which cancels
/// across the two fractions, multiplies and reduces. Within the limit none of
/// its products overflows.
#[verifier::external_body]
fn ratio_mul(an: i64, ad: i64, bn: i64, bd: i64) -> (r: (i64, i64))
    requires
        within_limit(an as int, ad as int),
        within_limit(bn as int, bd as int),
    ensures
        r.1 > 0,
        r.0 * (ad * bd) == (an * bn) * r.1,
        lowest_terms(r.0 as int, r.1 as int),
{
    let q = Rational64::new_raw(an, ad) * Rational64::new_raw(bn, bd);
    (*q.numer(), *q.denom())
}

/// The quotient of two fractions, in lowest terms.
///
/// Trusted: this is the `/` of `num_rational::Ratio<i64>`, which cancels
/// across the two fractions, multiplies crosswise and reduces, keeping the
/// denominator positive. It panics on a divisor of zero; within the limit
/// none of its products overflows.
#[verifier::external_body]
fn ratio_div(an: i64, ad: i64, bn: i64, bd: i64) -> (r: (i64, i64))
    requires
        within_limit(an as int, ad as int),
        within_limit(bn as int, bd as int),
        bn != 0,
    ensures
        r.1 > 0,
        r.0 * (ad * bn) == (an * bd) * r.1,
        lowest_terms(r.0 as int, r.1 as int),
{
    let q = Rational64::new_raw(an, ad) / Rational64::new_raw(bn, bd);
    (*q.numer(), *q.denom())
}

fn fits(n: i64, d: i64) -> (r: bool)
    ensures
        r == within_limit(n as int, d as int),
{
    -LIMIT < n && n < LIMIT && 0 < d && d < LIMIT
}

impl Rational {
    /// A finite number is in lowest terms, with a denominator above zero.
    pub open spec fn wf(&self) -> bool {
        *self matches Rational::Value(n, d) ==> d > 0 && lowest_terms(n as int, d as int)
    }

    /// The number is the fraction `n / d`.
    pub open spec fn is_fraction(&self, n: int, d: int) -> bool {
        *self matches Rational::Value(p, q) && p * d == n * q
    }

    /// Create a new rational: `numerator / denominator` in lowest terms.
    pub fn new(numerator: i64, denominator: u32) -> (r: Self)
        requires
            denominator != 0,
        ensures
            r.wf(),
            r.is_fraction(numerator as int, denominator as int),
    {
        let (n, d) = ratio_new(numerator, denominator as i64);
        Rational::Value(n, d)
    }

    /// The integer `value`.
    pub fn from_integer(value: i64) -> (r: Self)
        ensures
            r == Rational::Value(value, 1),
            r.wf(),
    {
        assert(lowest_terms(value as int, 1)) by {
            assert forall|k: int| k > 1 implies !(#[trigger] ((value as int) % k) == 0 && 1int % k
                == 0) by {
                vstd::arithmetic::div_mod::lemma_small_mod(1, k as nat);
            }
        }
        Rational::Value(value, 1)
    }

    /// Check if value is infinite
    pub fn is_infinite(&self) -> (r: bool)
        ensures
            r == !(self is Value),
    {
        match self {
            Rational::Value(_, _) => false,
            _ => true,
        }
    }

    /// The sum of two numbers.
    ///
    /// An infinity plus a finite number is that infinity; an infinity plus an
    /// infinity has no value. Finite numbers are added within the limit.
    pub fn add(&self, rhs: &Rational) -> (r: Result<Rational, RationalError>)
        requires
            self.wf(),
            rhs.wf(),
        ensures
            match (*self, *rhs) {
                (Rational::Value(an, ad), Rational::Value(bn, bd)) => if within_limit(
                    an as int,
                    ad as int,
                ) && within_limit(bn as int, bd as int) {
                    r matches Ok(v) && v.wf() && v.is_fraction(an * bd + bn * ad, ad * bd)
                } else {
                    r == Err::<Rational, RationalError>(RationalError::Overflow)
                },
                (Rational::Value(_, _), other) => r == Ok::<Rational, RationalError>(other),
                (other, Rational::Value(_, _)) => r == Ok::<Rational, RationalError>(other),
                _ => r == Err::<Rational, RationalError>(RationalError::ArithmeticUndefined),
            },
    {
        match (*self, *rhs) {
            (Rational::Value(an, ad), Rational::Value(bn, bd)) => {
                if fits(an, ad) && fits(bn, bd) {
                    let (n, d) = ratio_add(an, ad, bn, bd);
                    Ok(Rational::Value(n, d))
                } else {
                    Err(RationalError::Overflow)
                }
            },
            (Rational::Value(_, _), other) => Ok(other),
            (other, Rational::Value(_, _)) => Ok(other),
            _ => Err(RationalError::ArithmeticUndefined),
        }
    }

    /// The difference of two numbers.
    ///
    /// Negative infinity less a finite number is negative infinity; no other
    /// difference with an infinity has a value. Finite numbers are subtracted
    /// within the limit.
    pub fn sub(&self, rhs: &Rational) -> (r: Result<Rational, RationalError>)
        requires
            self.wf(),
            rhs.wf(),
        ensures
            match (*self, *rhs) {
                (Rational::Value(an, ad), Rational::Value(bn, bd)) => if within_limit(
                    an as int,
                    ad as int,
                ) && within_limit(bn as int, bd as int) {
                    r matches Ok(v) && v.wf() && v.is_fraction(an * bd - bn * ad, ad * bd)
                } else {
                    r == Err::<Rational, RationalError>(RationalError::Overflow)
                },
                (Rational::NegativeInfinity, Rational::Value(_, _)) => r == Ok::<
                    Rational,
                    RationalError,
                >(Rational::NegativeInfinity),
                _ => r == Err::<Rational, RationalError>(RationalError::ArithmeticUndefined),
            },
    {
        match (*self, *rhs) {
            (Rational::Value(an, ad), Rational::Value(bn, bd)) => {
                if fits(an, ad) && fits(bn, bd) {
                    let (n, d) = ratio_sub(an, ad, bn, bd);
                    Ok(Rational::Value(n, d))
                } else {
                    Err(RationalError::Overflow)
                }
            },
            (Rational::NegativeInfinity, Rational::Value(_, _)) => Ok(Rational::NegativeInfinity),
            _ => Err(RationalError::ArithmeticUndefined),
        }
    }

    /// The product of two numbers.
    ///
    /// An infinity times a finite number other than zero is an infinity, of
    /// the sign of the product; an infinity times zero or times an infinity
    /// has no value. Finite numbers are multiplied within the limit.
    pub fn mul(&self, rhs: &Rational) -> (r: Result<Rational, RationalError>)
        requires
            self.wf(),
            rhs.wf(),
        ensures
            match (*self, *rhs) {
                (Rational::Value(an, ad), Rational::Value(bn, bd)) => if within_limit(
                    an as int,
                    ad as int,
                ) && within_limit(bn as int, bd as int) {
                    r matches Ok(v) && v.wf() && v.is_fraction(an * bn, ad * bd)
                } else {
                    r == Err::<Rational, RationalError>(RationalError::Overflow)
                },
                (Rational::Value(n, _), other) => r == Self::scaled_infinity(n, other),
                (other, Rational::Value(n, _)) => r == Self::scaled_infinity(n, other),
                _ => r == Err::<Rational, RationalError>(RationalError::ArithmeticUndefined),
            },
    {
        match (*self, *rhs) {
            (Rational::Value(an, ad), Rational::Value(bn, bd)) => {
                if fits(an, ad) && fits(bn, bd) {
                    let (n, d) = ratio_mul(an, ad, bn, bd);
                    Ok(Rational::Value(n, d))
                } else {
                    Err(RationalError::Overflow)
                }
            },
            (Rational::Value(n, _), other) => Self::scale_infinity(n, other),
            (other, Rational::Value(n, _)) => Self::scale_infinity(n, other),
            _ => Err(RationalError::ArithmeticUndefined),
        }
    }

    /// The infinity `infinity` times a finite number with the numerator `n`.
    pub open spec fn scaled_infinity(n: i64, infinity: Rational) -> Result<Rational, RationalError> {
        if n == 0 || infinity is Value {
            Err(RationalError::ArithmeticUndefined)
        } else if (n > 0) == (infinity is PositiveInfinity) {
            Ok(Rational::PositiveInfinity)
        } else {
            Ok(Rational::NegativeInfinity)
        }
    }

    fn scale_infinity(n: i64, infinity: Rational) -> (r: Result<Rational, RationalError>)
        ensures
            r == Self::scaled_infinity(n, infinity),
    {
        match infinity {
            Rational::Value(_, _) => Err(RationalError::ArithmeticUndefined),
            Rational::PositiveInfinity => {
                if n > 0 {
                    Ok(Rational::PositiveInfinity)
                } else if n < 0 {
                    Ok(Rational::NegativeInfinity)
                } else {
                    Err(RationalError::ArithmeticUndefined)
                }
            },
            Rational::NegativeInfinity => {
                if n > 0 {
                    Ok(Rational::NegativeInfinity)
                } else if n < 0 {
                    Ok(Rational::PositiveInfinity)
                } else {
                    Err(RationalError::ArithmeticUndefined)
                }
            },
        }
    }

    /// The quotient of two finite numbers.
    ///
    /// A quotient with an infinity, or by zero, has no value. Finite numbers
    /// are divided within the limit.
    pub fn div(&self, rhs: &Rational) -> (r: Result<Rational, RationalError>)
        requires
            self.wf(),
            rhs.wf(),
        ensures
            match (*self, *rhs) {
                (Rational::Value(an, ad), Rational::Value(bn, bd)) => if bn == 0 {
                    r == Err::<Rational, RationalError>(RationalError::ArithmeticUndefined)
                } else if within_limit(an as int, ad as int) && within_limit(bn as int, bd as int) {
                    r matches Ok(v) && v.wf() && v.is_fraction(an * bd, ad * bn)
                } else {
                    r == Err::<Rational, RationalError>(RationalError::Overflow)
                },
                _ => r == Err::<Rational, RationalError>(RationalError::ArithmeticUndefined),
            },
    {
        match (*self, *rhs) {
            (Rational::Value(an, ad), Rational::Value(bn, bd)) => {
                if bn == 0 {
                    Err(RationalError::ArithmeticUndefined)
                } else if fits(an, ad) && fits(bn, bd) {
                    let (n, d) = ratio_div(an, ad, bn, bd);
                    Ok(Rational::Value(n, d))
                } else {
                    Err(RationalError::Overflow)
                }
            },
            _ => Err(RationalError::ArithmeticUndefined),
        }
    }

    /// The negative of the number; that of an infinity is the other
    /// infinity.
    pub fn neg(&self) -> (r: Result<Rational, RationalError>)
        requires
            self.wf(),
        ensures
            match *self {
                Rational::NegativeInfinity => r == Ok::<Rational, RationalError>(
                    Rational::PositiveInfinity,
                ),
                Rational::PositiveInfinity => r == Ok::<Rational, RationalError>(
                    Rational::NegativeInfinity,
                ),
                Rational::Value(n, d) => if n == i64::MIN {
                    r == Err::<Rational, RationalError>(RationalError::Overflow)
                } else {
                    r == Ok::<Rational, RationalError>(Rational::Value((-n) as i64, d))
                },
            },
            r matches Ok(v) ==> v.wf(),
    {
        match *self {
            Rational::NegativeInfinity => Ok(Rational::PositiveInfinity),
            Rational::PositiveInfinity => Ok(Rational::NegativeInfinity),
            Rational::Value(n, d) => {
                if n == i64::MIN {
                    Err(RationalError::Overflow)
                } else {
                    proof {
                        assert forall|k: int| k > 1 implies !(#[trigger] ((-n) % k) == 0 && (d as int)
                            % k == 0) by {
                            if (-n) % k == 0 {
                                vstd::arithmetic::div_mod::lemma_fundamental_div_mod(-n, k);
                                let q = (-n) / k;
                                assert(n == k * (-q)) by (nonlinear_arith)
                                    requires
                                        -n == k * q,
                                ;
                                vstd::arithmetic::div_mod::lemma_mod_multiples_basic(-q, k);
                                assert(k * (-q) == (-q) * k) by (nonlinear_arith);
                                assert((n as int) % k == 0);
                            }
                        }
                    }
                    Ok(Rational::Value(-n, d))
                }
            },
        }
    }

    /// This number is less than `other`: as fractions, or as an infinity
    /// stands to any other number.
    pub open spec fn spec_lt(&self, other: &Rational) -> bool {
        match (*self, *other) {
            (Rational::Value(an, ad), Rational::Value(bn, bd)) => an * bd < bn * ad,
            (Rational::NegativeInfinity, Rational::NegativeInfinity) => false,
            (Rational::NegativeInfinity, _) => true,
            (_, Rational::PositiveInfinity) => !(self is PositiveInfinity),
            _ => false,
        }
    }

    /// Whether this number is less than `other`.
    pub fn lt(&self, other: &Rational) -> (r: bool)
        requires
            self.wf(),
            other.wf(),
        ensures
            r == self.spec_lt(other),
    {
        match (*self, *other) {
            (Rational::Value(an, ad), Rational::Value(bn, bd)) => {
                proof {
                    assert(-0x8000_0000_0000_0000 * 0x8000_0000_0000_0000 <= an * bd
                        <= 0x8000_0000_0000_0000 * 0x8000_0000_0000_0000) by (nonlinear_arith)
                        requires
                            -0x8000_0000_0000_0000 <= an < 0x8000_0000_0000_0000,
                            0 < bd < 0x8000_0000_0000_0000,
                    ;
                    assert(-0x8000_0000_0000_0000 * 0x8000_0000_0000_0000 <= bn * ad
                        <= 0x8000_0000_0000_0000 * 0x8000_0000_0000_0000) by (nonlinear_arith)
                        requires
                            -0x8000_0000_0000_0000 <= bn < 0x8000_0000_0000_0000,
                            0 < ad < 0x8000_0000_0000_0000,
                    ;
                }
                (an as i128) * (bd as i128) < (bn as i128) * (ad as i128)
            },
            (Rational::NegativeInfinity, Rational::NegativeInfinity) => false,
            (Rational::NegativeInfinity, _) => true,
            (Rational::PositiveInfinity, Rational::PositiveInfinity) => false,
            (_, Rational::PositiveInfinity) => true,
            _ => false,
        }
    }

    /// Whether this number is at most `other`.
    pub fn le(&self, other: &Rational) -> (r: bool)
        requires
            self.wf(),
            other.wf(),
        ensures
            r == !other.spec_lt(self),
    {
        !other.lt(self)
    }

    /// The text of the number: a numeral for an integer, numerator and
    /// denominator with `/` between them for another finite number, and the
    /// sign of infinity for an infinity.
    pub open spec fn text(&self) -> Seq<char> {
        match *self {
            Rational::NegativeInfinity => seq!['-', '\u{221e}'],
            Rational::PositiveInfinity => seq!['\u{221e}'],
            Rational::Value(n, d) => if d == 1 {
                signed_decimal(n as int)
            } else {
                signed_decimal(n as int) + seq!['/'] + signed_decimal(d as int)
            },
        }
    }

    /// The number as text.
    pub fn to_string(&self) -> (out: String)
        ensures
            out@ == self.text(),
    {
        let mut chars: Vec<char> = Vec::new();
        match *self {
            Rational::NegativeInfinity => {
                chars.push('-');
                chars.push('\u{221e}');
            },
            Rational::PositiveInfinity => {
                chars.push('\u{221e}');
            },
            Rational::Value(n, d) => {
                push_signed_decimal(&mut chars, n);
                if d != 1 {
                    chars.push('/');
                    push_signed_decimal(&mut chars, d);
                }
            },
        }
        assert(chars@ =~= self.text());
        string_of(&chars)
    }
}

/// The character is a decimal digit.
pub open spec fn is_digit(c: char) -> bool {
    '0' <= c <= '9'
}

/// The number that a sequence of digits stands for.
pub open spec fn numeral_value(s: Seq<char>) -> nat
    decreases s.len(),
{
    if s.len() == 0 {
        0
    } else {
        (numeral_value(s.drop_last()) * 10 + (s.last() as u32 - '0' as u32)) as nat
    }
}

/// The sequence is one digit or more, and digits only.
pub open spec fn is_numeral(s: Seq<char>) -> bool {
    s.len() > 0 && forall|i: int| 0 <= i < s.len() ==> is_digit(#[trigger] s[i])
}

/// The place of the first `/` from `from` on, or the length where there is
/// none.
pub open spec fn slash_at(s: Seq<char>, from: int) -> int
    decreases s.len() - from,
{
    if from >= s.len() {
        s.len() as int
    } else if s[from] == '/' {
        from
    } else {
        slash_at(s, from + 1)
    }
}

/// The numerator and the denominator that a text stands for: an optional
/// `-`, a numeral, and maybe a `/` and another numeral that is not zero. The
/// numerator has to be a 64-bit integer and the denominator a 32-bit one.
pub open spec fn rational_text(s: Seq<char>) -> Option<(int, int)> {
    let negative = s.len() > 0 && s[0] == '-';
    let start: int = if negative {
        1
    } else {
        0
    };
    let slash = slash_at(s, start);
    let top = s.subrange(start, slash);
    let n: int = if negative {
        -(numeral_value(top) as int)
    } else {
        numeral_value(top) as int
    };
    if !is_numeral(top) || n < i64::MIN || n > i64::MAX {
        None
    } else if slash == s.len() {
        Some((n, 1int))
    } else {
        let bottom = s.subrange(slash + 1, s.len() as int);
        let d = numeral_value(bottom) as int;
        if !is_numeral(bottom) || d == 0 || d > u32::MAX {
            None
        } else {
            Some((n, d))
        }
    }
}

/// A numeral with more digits stands for no smaller number.
pub proof fn lemma_numeral_grows(s: Seq<char>, k: int)
    requires
        0 <= k <= s.len(),
        forall|i: int| 0 <= i < s.len() ==> is_digit(#[trigger] s[i]),
    ensures
        numeral_value(s.subrange(0, k)) <= numeral_value(s),
    decreases s.len() - k,
{
    if k < s.len() {
        let longer = s.subrange(0, k + 1);
        assert(longer.drop_last() =~= s.subrange(0, k));
        assert(is_digit(s[k]));
        lemma_numeral_grows(s, k + 1);
    } else {
        assert(s.subrange(0, k) =~= s);
    }
}

/// Reads the numeral that the characters from `from` up to `to` make, if it
/// is one and stands for a number up to `limit`.
fn read_numeral(chars: &Vec<char>, from: usize, to: usize, limit: u64) -> (r: Option<u64>)
    requires
        from <= to <= chars@.len(),
        limit <= 0x8000_0000_0000_0000,
    ensures
        match r {
            Some(v) => is_numeral(chars@.subrange(from as int, to as int)) && v == numeral_value(
                chars@.subrange(from as int, to as int),
            ) && v <= limit,
            None => !is_numeral(chars@.subrange(from as int, to as int)) || numeral_value(
                chars@.subrange(from as int, to as int),
            ) > limit,
        },
{
    let ghost s = chars@.subrange(from as int, to as int);
    if from == to {
        return None;
    }
    let mut acc: u64 = 0;
    let mut i: usize = from;
    while i < to
        invariant
            from <= i <= to <= chars@.len(),
            s == chars@.subrange(from as int, to as int),
            limit <= 0x8000_0000_0000_0000,
            forall|j: int| 0 <= j < i - from ==> is_digit(#[trigger] s[j]),
            acc == numeral_value(s.subrange(0, i - from)),
            acc <= limit,
        decreases to - i,
    {
        let c = chars[i];
        assert(s[i - from] == c);
        if !(c >= '0' && c <= '9') {
            return None;
        }
        let d = (c as u32 - '0' as u32) as u64;
        proof {
            let longer = s.subrange(0, i - from + 1);
            assert(longer.drop_last() =~= s.subrange(0, i - from));
            assert(longer.last() == c);
        }
        if d > limit || acc > (limit - d) / 10 {
            proof {
                // The number is beyond the limit, whatever follows.
                if is_numeral(s) {
                    lemma_numeral_grows(s, i - from + 1);
                }
            }
            return None;
        }
        acc = acc * 10 + d;
        i += 1;
    }
    proof {
        assert(s.subrange(0, to - from) =~= s);
    }
    Some(acc)
}

/// The place of the first `/` from `from` on, or the length.
fn find_slash(chars: &Vec<char>, from: usize) -> (r: usize)
    requires
        from <= chars@.len(),
    ensures
        r == slash_at(chars@, from as int),
        from <= r <= chars@.len(),
{
    let mut i = from;
    while i < chars.len() && chars[i] != '/'
        invariant
            from <= i <= chars@.len(),
            slash_at(chars@, from as int) == slash_at(chars@, i as int),
        decreases chars@.len() - i,
    {
        i += 1;
    }
    i
}

impl Rational {
    /// Reads a rational number from its text: an integer, or a numerator and
    /// a denominator with `/` between them. The infinities have no text that
    /// is read.
    pub fn parse(input: &str) -> (r: Result<Rational, RationalError>)
        ensures
            r is Ok <==> rational_text(input@) is Some,
            r is Err ==> r == Err::<Rational, RationalError>(RationalError::InvalidRational),
            r matches Ok(v) ==> v.wf() && ({
                let parts = rational_text(input@)->Some_0;
                v.is_fraction(parts.0, parts.1)
            }),
    {
        let chars = chars_of(input);
        let negative = chars.len() > 0 && chars[0] == '-';
        let start: usize = if negative {
            1
        } else {
            0
        };
        let slash = find_slash(&chars, start);
        let limit: u64 = if negative {
            0x8000_0000_0000_0000
        } else {
            0x7fff_ffff_ffff_ffff
        };
        let top = match read_numeral(&chars, start, slash, limit) {
            Some(v) => v,
            None => {
                return Err(RationalError::InvalidRational);
            },
        };
        let n: i64 = if negative {
            if top == 0x8000_0000_0000_0000 {
                i64::MIN
            } else {
                -(top as i64)
            }
        } else {
            top as i64
        };
        if slash == chars.len() {
            return Ok(Rational::from_integer(n));
        }
        let bottom = match read_numeral(&chars, slash + 1, chars.len(), 0xffff_ffff) {
            Some(v) => v,
            None => {
                return Err(RationalError::InvalidRational);
            },
        };
        if bottom == 0 {
            return Err(RationalError::InvalidRational);
        }
        Ok(Rational::new(n, bottom as u32))
    }
}

} // verus!
