//! Reading the text of a rational number gives the number back.

use crate::numeric::rational::{
    is_digit, is_numeral, lowest_terms, numeral_value, rational_text, slash_at, Rational,
};
use crate::text::{decimal, digit, signed_decimal};
use vstd::prelude::*;

verus! {

/// The numeral of a number is a numeral, holds digits only, and stands for
/// the number.
pub proof fn lemma_decimal_is_numeral(n: nat)
    ensures
        is_numeral(decimal(n)),
        numeral_value(decimal(n)) == n,
    decreases n,
{
    let s = decimal(n);
    if n < 10 {
        assert(s.len() == 1 && s[0] == digit(n));
        assert(s.drop_last() =~= Seq::<char>::empty());
        assert(numeral_value(s.drop_last()) == 0);
        assert(s.last() == digit(n));
    } else {
        lemma_decimal_is_numeral(n / 10);
        assert(s.drop_last() =~= decimal(n / 10));
        assert(s.last() == digit(n % 10));
        assert forall|i: int| 0 <= i < s.len() implies is_digit(#[trigger] s[i]) by {
            if i < s.len() - 1 {
                assert(s[i] == decimal(n / 10)[i]);
            }
        }
    }
}

/// The first `/` of a text that begins with digits stands after the
/// digits, where the text goes on with one, and else at the end.
proof fn lemma_slash_after(s: Seq<char>, from: int, to: int)
    requires
        0 <= from <= to <= s.len(),
        forall|i: int| from <= i < to ==> is_digit(#[trigger] s[i]),
        to < s.len() ==> s[to] == '/',
    ensures
        slash_at(s, from) == to,
    decreases to - from,
{
    if from < to {
        assert(is_digit(s[from]));
        lemma_slash_after(s, from + 1, to);
    }
}

/// Two numbers of which multiples by `c` are multiples of `a` have a common
/// divisor whose multiple by `c` is a multiple of `a`.
proof fn lemma_common_divisor(x: int, y: int, a: int, c: int, kx: int, ky: int) -> (r: (
    int,
    int,
    int,
    int,
))
    requires
        x >= 0,
        y >= 0,
        x + y > 0,
        x * c == a * kx,
        y * c == a * ky,
    ensures
        r.0 > 0,
        x == r.0 * r.1,
        y == r.0 * r.2,
        r.0 * c == a * r.3,
    decreases x + y,
{
    if x == 0 {
        assert(x == y * 0);
        assert(y == y * 1);
        (y, 0, 1, ky)
    } else if y == 0 {
        assert(x == x * 1);
        assert(y == x * 0);
        (x, 1, 0, kx)
    } else if x >= y {
        assert((x - y) * c == a * (kx - ky)) by (nonlinear_arith)
            requires
                x * c == a * kx,
                y * c == a * ky,
        ;
        let r = lemma_common_divisor(x - y, y, a, c, kx - ky, ky);
        assert(x == r.0 * (r.1 + r.2)) by (nonlinear_arith)
            requires
                x - y == r.0 * r.1,
                y == r.0 * r.2,
        ;
        (r.0, r.1 + r.2, r.2, r.3)
    } else {
        assert((y - x) * c == a * (ky - kx)) by (nonlinear_arith)
            requires
                x * c == a * kx,
                y * c == a * ky,
        ;
        let r = lemma_common_divisor(x, y - x, a, c, kx, ky - kx);
        assert(y == r.0 * (r.1 + r.2)) by (nonlinear_arith)
            requires
                y - x == r.0 * r.2,
                x == r.0 * r.1,
        ;
        (r.0, r.1, r.1 + r.2, r.3)
    }
}

/// A multiple of `g` leaves no remainder on division by `g`.
proof fn lemma_multiple_mod(g: int, k: int)
    requires
        g > 0,
    ensures
        (g * k) % g == 0,
{
    vstd::arithmetic::div_mod::lemma_mod_multiples_basic(k, g);
    assert(k * g == g * k) by (nonlinear_arith);
}

/// Where `q` divides `p * d` and has no divisor above one in common with
/// `p`, it divides `d`.
proof fn lemma_coprime_divides(p: int, q: int, d: int, k: int) -> (m: int)
    requires
        q > 0,
        d > 0,
        lowest_terms(p, q),
        p * d == q * k,
    ensures
        d == q * m,
{
    let (b, kb) = if p >= 0 {
        (p, k)
    } else {
        (-p, -k)
    };
    assert(b * d == q * kb) by (nonlinear_arith)
        requires
            p * d == q * k,
            (b == p && kb == k) || (b == -p && kb == -k),
    ;
    assert(q * d == q * d);
    let r = lemma_common_divisor(q, b, q, d, d, kb);
    let g = r.0;
    if g > 1 {
        lemma_multiple_mod(g, r.1);
        lemma_multiple_mod(g, r.2);
        if p >= 0 {
            assert(p % g == 0);
        } else {
            assert(p == g * (-r.2)) by (nonlinear_arith)
                requires
                    -p == g * r.2,
            ;
            lemma_multiple_mod(g, -r.2);
        }
        assert(q % g == 0);
        assert(false);
    }
    assert(g == 1);
    assert(d == q * r.3) by (nonlinear_arith)
        requires
            g * d == q * r.3,
            g == 1,
    ;
    r.3
}

/// A fraction has one form in lowest terms with a denominator above zero.
pub proof fn lemma_lowest_terms_unique(p: int, q: int, n: int, d: int)
    requires
        q > 0,
        d > 0,
        lowest_terms(p, q),
        lowest_terms(n, d),
        p * d == n * q,
    ensures
        p == n,
        q == d,
{
    assert(p * d == q * n) by (nonlinear_arith)
        requires
            p * d == n * q,
    ;
    let m = lemma_coprime_divides(p, q, d, n);
    assert(n * q == d * p) by (nonlinear_arith)
        requires
            p * d == n * q,
    ;
    let m2 = lemma_coprime_divides(n, d, q, p);
    assert(m == 1 && m2 == 1) by (nonlinear_arith)
        requires
            d == q * m,
            q == d * m2,
            q > 0,
            d > 0,
    ;
    assert(q == d) by (nonlinear_arith)
        requires
            d == q * m,
            m == 1,
    ;
    assert(p == n) by (nonlinear_arith)
        requires
            p * d == n * q,
            q == d,
            d > 0,
    ;
}

impl Rational {
    /// The text of a finite number is read as its numerator and its
    /// denominator, as long as the denominator is a 32-bit number.
    pub proof fn lemma_text_is_read(&self)
        requires
            self.wf(),
            *self matches Rational::Value(n, d) && d <= u32::MAX,
        ensures
            *self matches Rational::Value(n, d) && rational_text(self.text()) == Some(
                (n as int, d as int),
            ),
    {
        let n = self->Value_0;
        let d = self->Value_1;
        let s = self.text();
        let negative = n < 0;
        let magnitude: nat = if negative {
            (-n) as nat
        } else {
            n as nat
        };
        let top = decimal(magnitude);
        let sign = if negative {
            seq!['-']
        } else {
            Seq::<char>::empty()
        };
        lemma_decimal_is_numeral(magnitude);
        lemma_decimal_is_numeral(d as nat);
        assert(signed_decimal(n as int) =~= sign + top);
        assert(is_digit(top[0]));
        let start: int = if negative {
            1
        } else {
            0
        };
        let to = start + top.len();
        if d == 1 {
            assert(s =~= sign + top);
            assert forall|i: int| start <= i < to implies is_digit(#[trigger] s[i]) by {
                assert(s[i] == top[i - start]);
            }
            lemma_slash_after(s, start, to);
            assert(s.subrange(start, to) =~= top);
        } else {
            let bottom = decimal(d as nat);
            assert(signed_decimal(d as int) == bottom);
            assert(s =~= sign + top + seq!['/'] + bottom);
            assert forall|i: int| start <= i < to implies is_digit(#[trigger] s[i]) by {
                assert(s[i] == top[i - start]);
            }
            assert(s[to] == '/');
            lemma_slash_after(s, start, to);
            assert(s.subrange(start, to) =~= top);
            assert(s.subrange(to + 1, s.len() as int) =~= bottom);
        }
        assert(s[0] == (sign + top)[0]);
    }

    /// Reading the text of a number gives the number back: a number in
    /// lowest terms that is the fraction which the text of `self` is read
    /// as is `self`.
    pub proof fn lemma_text_roundtrip(&self, read: Rational)
        requires
            self.wf(),
            *self matches Rational::Value(n, d) && d <= u32::MAX,
            read.wf(),
            rational_text(self.text()) matches Some(parts) && read.is_fraction(parts.0, parts.1),
        ensures
            read == *self,
    {
        self.lemma_text_is_read();
        let n = self->Value_0;
        let d = self->Value_1;
        let p = read->Value_0;
        let q = read->Value_1;
        lemma_lowest_terms_unique(p as int, q as int, n as int, d as int);
    }
}

} // verus!
