//! Dyadic rational numbers: fractions whose denominator is a power of two.

use crate::text::{push_signed_decimal, signed_decimal, string_of};
use gcd::Gcd;
use vstd::arithmetic::power2::{
    lemma2_to64, lemma_pow2_adds, lemma_pow2_pos, lemma_pow2_strictly_increases, lemma_pow2_unfold,
    pow2,
};
use vstd::prelude::*;

verus! {

/// Greatest exponent of a denominator.
pub const MAX_EXPONENT: u32 = 30;

/// A dyadic rational number `numerator / 2^denominator_exponent` in lowest
/// terms: the numerator is odd unless the exponent is zero.
#[derive(Debug, Clone, Copy, PartialEq, Eq, Hash, Structural)]
pub struct DyadicRationalNumber {
    numerator: i32,
    exponent: u32,
}

/// How a number stands to another.
#[derive(Debug, Clone, Copy, PartialEq, Eq, Hash, Structural)]
pub enum Relation {
    Less,
    Equal,
    Greater,
}

/// `g` is the greatest common divisor of `a` and `b`; that of zero and zero
/// is zero.
pub open spec fn is_gcd(a: nat, b: nat, g: nat) -> bool {
    if a == 0 && b == 0 {
        g == 0
    } else {
        &&& g > 0
        &&& a % g == 0
        &&& b % g == 0
        &&& forall|d: nat| d > 0 && a % d == 0 && #[trigger] (b % d) == 0 ==> d <= g
    }
}

/// The greatest common divisor of two numbers.
///
/// Trusted: this is `gcd::Gcd::gcd` for `u32`, which the `gcd` crate computes
/// by the binary algorithm and documents as the greatest common divisor, with
/// `gcd(0, 0) = 0` and `gcd(n, 0) = n`.
#[verifier::external_body]
fn greatest_common_divisor(a: u32, b: u32) -> (g: u32)
    ensures
        is_gcd(a as nat, b as nat, g as nat),
{
    a.gcd(b)
}

/// Two to the power `k`.
fn power_of_two(k: u32) -> (p: u64)
    requires
        k <= 62,
    ensures
        p == pow2(k as nat),
        1 <= p <= 0x4000_0000_0000_0000,
{
    let mut p: u64 = 1;
    let mut i: u32 = 0;
    proof {
        lemma2_to64();
        vstd::arithmetic::power2::lemma2_to64_rest();
    }
    while i < k
        invariant
            i <= k <= 62,
            p == pow2(i as nat),
            1 <= p,
            p <= pow2(62),
            pow2(62) == 0x4000_0000_0000_0000,
        decreases k - i,
    {
        proof {
            lemma_pow2_unfold((i + 1) as nat);
            if i + 1 < 62 {
                lemma_pow2_strictly_increases((i + 1) as nat, 62);
            }
        }
        p = p * 2;
        i += 1;
    }
    proof {
        vstd::arithmetic::power2::lemma2_to64_rest();
    }
    p
}

/// The number that a sign and a magnitude stand for.
pub open spec fn signed(negative: bool, magnitude: int) -> int {
    if negative {
        -magnitude
    } else {
        magnitude
    }
}

/// The number `t / 2^j`, times `2^30`.
pub open spec fn multiple(t: int, j: nat) -> int {
    t * pow2((30 - j) as nat)
}

/// No number `t / 2^j` with `j` below `k` lies strictly between `lo` and
/// `hi`, both taken times `2^30`.
pub open spec fn none_coarser(lo: int, hi: int, k: nat) -> bool {
    forall|j: nat, t: int| j < k && j <= 30 ==> !(lo < #[trigger] multiple(t, j) < hi)
}

/// The simplest number strictly between `lo` and `hi`, which are not
/// negative and taken times `2^30`: its numerator and exponent, if the
/// numerator is within the limit.
fn simplest_above(lo: u64, hi: u64) -> (r: Option<(u32, u32)>)
    requires
        lo < hi <= 0x2000_0000_0000_0000,
    ensures
        match r {
            Some((n, k)) => {
                &&& k <= 30
                &&& 1 <= n <= 0x7fff_ffff
                &&& k == 0 || n % 2 == 1
                &&& lo < multiple(n as int, k as nat) < hi
                &&& none_coarser(lo as int, hi as int, k as nat)
                &&& forall|t: int| lo < #[trigger] multiple(t, k as nat) < hi ==> n <= t
            },
            None => forall|j: nat, t: int|
                j <= 30 && t <= 0x7fff_ffff ==> !(lo < #[trigger] multiple(t, j) < hi),
        },
{
    let mut k: u32 = 0;
    while k <= 30
        invariant
            k <= 31,
            lo < hi <= 0x2000_0000_0000_0000,
            none_coarser(lo as int, hi as int, k as nat),
        decreases 31 - k,
    {
        let u = power_of_two(30 - k);
        proof {
            lemma2_to64();
            if k > 0 {
                lemma_pow2_strictly_increases((30 - k) as nat, 30);
            }
        }
        let q = lo / u;
        proof {
            vstd::arithmetic::div_mod::lemma_fundamental_div_mod(lo as int, u as int);
            vstd::arithmetic::div_mod::lemma_mod_bound(lo as int, u as int);
            assert(q * u <= lo < (q + 1) * u) by (nonlinear_arith)
                requires
                    lo == u * q + (lo as int) % (u as int),
                    0 <= (lo as int) % (u as int) < u,
            ;
            assert(q <= lo) by (nonlinear_arith)
                requires
                    q * u <= lo,
                    u >= 1,
                    q >= 0,
            ;
        }
        if q + 1 > 0x7fff_ffff {
            proof {
                assert forall|j: nat, t: int| j <= 30 && t <= 0x7fff_ffff implies !(lo
                    < #[trigger] multiple(t, j) < hi) by {
                    if j >= k {
                        let d = (j - k) as nat;
                        lemma_pow2_adds(d, (30 - j) as nat);
                        assert(d + (30 - j) as nat == (30 - k) as nat);
                        lemma_pow2_pos(d);
                        lemma_pow2_pos((30 - j) as nat);
                        let a = pow2(d) as int;
                        let b = pow2((30 - j) as nat) as int;
                        assert(t * b <= lo) by (nonlinear_arith)
                            requires
                                t <= q,
                                q * (a * b) <= lo,
                                a >= 1,
                                b >= 1,
                                q >= 0,
                        ;
                    }
                }
            }
            return None;
        }
        proof {
            assert((q + 1) * u == q * u + u) by (nonlinear_arith);
        }
        let c = (q + 1) * u;
        if c < hi {
            proof {
                assert(multiple((q + 1) as int, k as nat) == c);
                if k > 0 && (q + 1) % 2 == 0 {
                    let t = ((q + 1) / 2) as int;
                    lemma_pow2_unfold((31 - k) as nat);
                    assert(multiple(t, (k - 1) as nat) == c) by (nonlinear_arith)
                        requires
                            multiple(t, (k - 1) as nat) == t * (2 * u),
                            c == (2 * t) * u,
                    ;
                    assert(false);
                }
                assert forall|t: int| lo < #[trigger] multiple(t, k as nat) < hi implies q + 1
                    <= t by {
                    assert(t > q) by (nonlinear_arith)
                        requires
                            t * u > lo,
                            q * u <= lo,
                            u >= 1,
                    ;
                }
            }
            return Some(((q + 1) as u32, k));
        }
        proof {
            assert forall|j: nat, t: int| j < k + 1 && j <= 30 implies !(lo < #[trigger] multiple(
                t,
                j,
            ) < hi) by {
                if j == k {
                    if t <= q {
                        assert(t * u <= lo) by (nonlinear_arith)
                            requires
                                t <= q,
                                q * u <= lo,
                                u >= 1,
                        ;
                    } else {
                        assert(t * u >= c) by (nonlinear_arith)
                            requires
                                t >= q + 1,
                                c == (q + 1) * u,
                                u >= 1,
                        ;
                    }
                }
            }
        }
        k += 1;
    }
    None
}

impl DyadicRationalNumber {
    /// The numerator.
    pub closed spec fn spec_numerator(&self) -> i32 {
        self.numerator
    }

    /// The exponent of the denominator.
    pub closed spec fn spec_exponent(&self) -> u32 {
        self.exponent
    }

    /// The number is in lowest terms and its exponent is within the limit.
    pub open spec fn wf(&self) -> bool {
        &&& self.spec_exponent() <= 30
        &&& self.spec_exponent() == 0 || self.numerator() % 2 != 0
    }

    /// The number times `2^30`, which is an integer.
    pub open spec fn scaled(&self) -> int {
        self.numerator() * pow2((30 - self.spec_exponent()) as nat)
    }

    /// The number with the numerator `n` and the denominator `2^k`.
    pub closed spec fn spec_of(n: i32, k: u32) -> Self {
        DyadicRationalNumber { numerator: n, exponent: k }
    }

    /// There is a number for every numerator and every exponent up to 30,
    /// as long as the fraction is in lowest terms.
    pub proof fn lemma_exists(n: i32, k: u32)
        requires
            k <= 30,
            k == 0 || n % 2 != 0,
        ensures
            Self::spec_of(n, k).wf(),
            Self::spec_of(n, k).numerator() == n,
            Self::spec_of(n, k).spec_exponent() == k,
            Self::spec_of(n, k).scaled() == n * pow2((30 - k) as nat),
    {
    }

    /// A number in lowest terms is determined by its value.
    pub proof fn lemma_scaled_injective(a: Self, b: Self)
        requires
            a.wf(),
            b.wf(),
            a.scaled() == b.scaled(),
        ensures
            a == b,
    {
        let ka = a.spec_exponent() as nat;
        let kb = b.spec_exponent() as nat;
        let na = a.numerator() as int;
        let nb = b.numerator() as int;
        if ka < kb {
            Self::lemma_lower_exponent_even(nb, kb, na, ka);
        } else if kb < ka {
            Self::lemma_lower_exponent_even(na, ka, nb, kb);
        } else {
            lemma_pow2_pos((30 - ka) as nat);
            let p = pow2((30 - ka) as nat) as int;
            assert(na == nb) by (nonlinear_arith)
                requires
                    na * p == nb * p,
                    p > 0,
            ;
        }
    }

    /// Where `n / 2^k` equals `m / 2^j` with `j < k`, `n` is even.
    proof fn lemma_lower_exponent_even(n: int, k: nat, m: int, j: nat)
        requires
            j < k <= 30,
            n * pow2((30 - k) as nat) == m * pow2((30 - j) as nat),
        ensures
            n % 2 == 0,
    {
        let d = (k - j) as nat;
        lemma_pow2_adds((30 - k) as nat, d);
        assert((30 - k) as nat + d == (30 - j) as nat);
        lemma_pow2_pos((30 - k) as nat);
        lemma_pow2_unfold(d);
        let p = pow2((30 - k) as nat) as int;
        let q = pow2((d - 1) as nat) as int;
        assert(pow2((30 - j) as nat) == p * (2 * q));
        assert(n == m * (2 * q)) by (nonlinear_arith)
            requires
                n * p == m * (p * (2 * q)),
                p > 0,
        ;
        assert(n == 2 * (m * q)) by (nonlinear_arith)
            requires
                n == m * (2 * q),
        ;
    }

    /// The numerator.
    #[verifier::when_used_as_spec(spec_numerator)]
    pub fn numerator(&self) -> (n: i32)
        ensures
            n == self.numerator(),
    {
        self.numerator
    }

    /// The denominator, a power of two.
    pub fn denominator(&self) -> (d: i32)
        requires
            self.wf(),
        ensures
            d == pow2(self.spec_exponent() as nat),
    {
        let p = power_of_two(self.exponent);
        proof {
            lemma2_to64();
            if self.exponent < 30 {
                lemma_pow2_strictly_increases(self.exponent as nat, 30);
            }
        }
        p as i32
    }

    /// The exponent of the denominator: the denominator is two to this power.
    pub fn denominator_exponent(&self) -> (k: i32)
        requires
            self.wf(),
        ensures
            k == self.spec_exponent(),
    {
        self.exponent as i32
    }

    /// The number `±magnitude / 2^k` in lowest terms, if its numerator and
    /// exponent are within the limits.
    fn from_parts(negative: bool, magnitude: u64, k: u32) -> (r: Option<Self>)
        ensures
            r matches Some(d) ==> d.wf() && d.scaled() * pow2(k as nat) == signed(
                negative,
                magnitude as int,
            ) * pow2(30),
            r is None ==> forall|d: Self|
                d.wf() ==> #[trigger] d.scaled() * pow2(k as nat) != signed(
                    negative,
                    magnitude as int,
                ) * pow2(30),
    {
        let mut m = magnitude;
        let mut e = k;
        let ghost value = signed(negative, magnitude as int);
        proof {
            lemma_pow2_pos(k as nat);
        }
        while e > 0 && m % 2 == 0
            invariant
                e <= k,
                m * pow2(k as nat) == magnitude * pow2(e as nat),
            decreases e,
        {
            proof {
                lemma_pow2_unfold(e as nat);
                let p = pow2(k as nat) as int;
                let q = pow2((e - 1) as nat) as int;
                let h = (m / 2) as int;
                assert(h * p == magnitude * q) by (nonlinear_arith)
                    requires
                        (2 * h) * p == magnitude * (2 * q),
                ;
            }
            m = m / 2;
            e -= 1;
        }
        let fits = e <= MAX_EXPONENT && (m <= 0x7fff_ffff || (negative && m == 0x8000_0000));
        proof {
            // What any number in lowest terms with this value looks like.
            assert forall|d: Self|
                d.wf() && #[trigger] d.scaled() * pow2(k as nat) == value * pow2(30) implies d.spec_exponent()
                == e && d.numerator() == signed(negative, m as int) by {
                Self::lemma_lowest_terms(d, negative, m as int, e as nat, magnitude as int, k as nat);
            }
        }
        if !fits {
            return None;
        }
        let n: i32 = if negative {
            if m == 0x8000_0000 {
                i32::MIN
            } else {
                -(m as i32)
            }
        } else {
            m as i32
        };
        let d = DyadicRationalNumber { numerator: n, exponent: e };
        proof {
            Self::lemma_value_of_parts(negative, m as int, e as nat, magnitude as int, k as nat);
        }
        Some(d)
    }

    /// `±m / 2^e` is `±magnitude / 2^k`, scaled.
    proof fn lemma_value_of_parts(negative: bool, m: int, e: nat, magnitude: int, k: nat)
        requires
            e <= 30,
            m * pow2(k) == magnitude * pow2(e),
        ensures
            signed(negative, m) * pow2((30 - e) as nat) * pow2(k) == signed(negative, magnitude)
                * pow2(30),
    {
        lemma_pow2_adds((30 - e) as nat, e);
        let a = pow2((30 - e) as nat) as int;
        let b = pow2(e) as int;
        let p = pow2(k) as int;
        assert(pow2(30) == a * b);
        assert(m * a * p == magnitude * (a * b)) by (nonlinear_arith)
            requires
                m * p == magnitude * b,
        ;
        assert((-m) * a * p == (-magnitude) * (a * b)) by (nonlinear_arith)
            requires
                m * a * p == magnitude * (a * b),
        ;
    }

    /// A number in lowest terms with the value `±magnitude / 2^k`, which is
    /// `±m / 2^e` with `m` odd or `e` zero, has the numerator `±m` and the
    /// exponent `e`.
    proof fn lemma_lowest_terms(d: Self, negative: bool, m: int, e: nat, magnitude: int, k: nat)
        requires
            d.wf(),
            e <= k,
            m >= 0,
            e == 0 || m % 2 != 0,
            m * pow2(k) == magnitude * pow2(e),
            d.scaled() * pow2(k) == signed(negative, magnitude) * pow2(30),
        ensures
            d.spec_exponent() == e,
            d.numerator() == signed(negative, m),
    {
        let j = d.spec_exponent() as nat;
        let n = d.numerator() as int;
        let v = signed(negative, m);
        let p = pow2(k) as int;
        lemma_pow2_pos(k);
        lemma_pow2_pos(e);
        lemma_pow2_pos(j);
        lemma_pow2_pos((30 - j) as nat);
        lemma_pow2_adds((30 - j) as nat, j);
        let a = pow2((30 - j) as nat) as int;
        let pj = pow2(j) as int;
        let pe = pow2(e) as int;
        assert(pow2(30) == a * pj);
        // n * 2^e == v * 2^j
        assert(v * p == signed(negative, magnitude) * pe) by (nonlinear_arith)
            requires
                m * p == magnitude * pe,
                v == signed(negative, m),
        ;
        assert(n * pe == v * pj) by (nonlinear_arith)
            requires
                n * a * p == signed(negative, magnitude) * (a * pj),
                v * p == signed(negative, magnitude) * pe,
                a > 0,
                p > 0,
        ;
        if j < e {
            let t = (e - j) as nat;
            lemma_pow2_adds(j, t);
            lemma_pow2_unfold(t);
            let q = pow2((t - 1) as nat) as int;
            assert(v == 2 * (n * q)) by (nonlinear_arith)
                requires
                    n * (pj * (2 * q)) == v * pj,
                    pj > 0,
            ;
            assert(m % 2 == 0);
        } else if e < j {
            let t = (j - e) as nat;
            lemma_pow2_adds(e, t);
            lemma_pow2_unfold(t);
            let q = pow2((t - 1) as nat) as int;
            assert(n == 2 * (v * q)) by (nonlinear_arith)
                requires
                    n * pe == v * (pe * (2 * q)),
                    pe > 0,
            ;
        } else {
            assert(n == v) by (nonlinear_arith)
                requires
                    n * pe == v * pe,
                    pe > 0,
            ;
        }
    }

    /// The integer `value` as a dyadic rational number.
    pub closed spec fn spec_integer(value: i32) -> Self {
        DyadicRationalNumber { numerator: value, exponent: 0 }
    }

    /// An integer has its value as numerator and one as denominator.
    pub proof fn lemma_integer(value: i32)
        ensures
            Self::spec_integer(value).wf(),
            Self::spec_integer(value).numerator() == value,
            Self::spec_integer(value).spec_exponent() == 0,
            Self::spec_integer(value).scaled() == value * pow2(30),
    {
    }

    /// The integer `value` as a dyadic rational number.
    pub fn from_integer(value: i32) -> (d: Self)
        ensures
            d == Self::spec_integer(value),
            d.wf(),
            d.numerator() == value,
            d.spec_exponent() == 0,
    {
        DyadicRationalNumber { numerator: value, exponent: 0 }
    }

    /// The fraction `numerator / denominator` in lowest terms.
    ///
    /// There is none where the denominator is zero, where the fraction in
    /// lowest terms has a denominator that is no power of two, or where its
    /// numerator is beyond the limit: a number is returned exactly when some
    /// dyadic rational number equals the fraction.
    pub fn rational(numerator: i32, denominator: i32) -> (r: Option<Self>)
        ensures
            r matches Some(d) ==> d.wf() && denominator != 0 && d.scaled() * denominator
                == numerator * pow2(30),
            r is None ==> denominator == 0 || forall|d: Self|
                d.wf() ==> #[trigger] d.scaled() * denominator != numerator * pow2(30),
    {
        if denominator == 0 {
            return None;
        }
        let negative = (numerator < 0) != (denominator < 0);
        let n: u32 = if numerator < 0 {
            if numerator == i32::MIN {
                0x8000_0000u32
            } else {
                (-numerator) as u32
            }
        } else {
            numerator as u32
        };
        let d: u32 = if denominator < 0 {
            if denominator == i32::MIN {
                0x8000_0000u32
            } else {
                (-denominator) as u32
            }
        } else {
            denominator as u32
        };
        let ghost n0 = n as int;
        let ghost d0 = d as int;
        let g = greatest_common_divisor(n, d);
        proof {
            assert(n0 == (n0 / (g as int)) * g && d0 == (d0 / (g as int)) * g) by {
                vstd::arithmetic::div_mod::lemma_fundamental_div_mod(n0, g as int);
                vstd::arithmetic::div_mod::lemma_fundamental_div_mod(d0, g as int);
                assert(g * (n0 / (g as int)) == (n0 / (g as int)) * g) by (nonlinear_arith);
                assert(g * (d0 / (g as int)) == (d0 / (g as int)) * g) by (nonlinear_arith);
            }
        }
        let n = n / g;
        let d = d / g;
        proof {
            assert(d > 0) by (nonlinear_arith)
                requires
                    d0 == d * g,
                    d0 > 0,
                    g > 0,
            ;
        }
        // The denominator in lowest terms has to be a power of two.
        let mut k: u32 = 0;
        let mut odd: u32 = d;
        proof {
            lemma2_to64();
        }
        while odd % 2 == 0
            invariant
                odd > 0,
                k <= 31,
                d == odd * pow2(k as nat),
                d <= 0x8000_0000,
            decreases odd,
        {
            proof {
                lemma_pow2_unfold((k + 1) as nat);
                lemma_pow2_pos(k as nat);
                let h = (odd / 2) as int;
                let p = pow2(k as nat) as int;
                assert(d == h * (2 * p)) by (nonlinear_arith)
                    requires
                        d == (2 * h) * p,
                ;
                if k == 31 {
                    lemma2_to64();
                    lemma_pow2_strictly_increases(31, 32);
                    assert(h * (2 * p) >= 2 * p) by (nonlinear_arith)
                        requires
                            h >= 1,
                            p > 0,
                    ;
                }
            }
            odd = odd / 2;
            k += 1;
        }
        if odd != 1 {
            proof {
                Self::lemma_not_dyadic(
                    numerator as int,
                    denominator as int,
                    n as int,
                    g as int,
                    odd as int,
                    k as nat,
                );
            }
            return None;
        }
        let r = Self::from_parts(negative, n as u64, k);
        proof {
            Self::lemma_fraction_value(
                numerator as int,
                denominator as int,
                negative,
                n as int,
                d as int,
                g as int,
                k as nat,
            );
        }
        r
    }

    /// The fraction `±n / 2^k`, where `n` and `2^k` are the magnitudes of the
    /// numerator and the denominator divided by `g`, is the fraction.
    proof fn lemma_fraction_value(
        numerator: int,
        denominator: int,
        negative: bool,
        n: int,
        d: int,
        g: int,
        k: nat,
    )
        requires
            denominator != 0,
            g > 0,
            negative == ((numerator < 0) != (denominator < 0)),
            n * g == (if numerator < 0 {
                -numerator
            } else {
                numerator
            }),
            d * g == (if denominator < 0 {
                -denominator
            } else {
                denominator
            }),
            d == pow2(k),
        ensures
            forall|x: int|
                (#[trigger] (x * pow2(k)) == signed(negative, n) * pow2(30)) == (x * denominator
                    == numerator * pow2(30)),
    {
        let p = pow2(30) as int;
        assert forall|x: int|
            (#[trigger] (x * pow2(k)) == signed(negative, n) * pow2(30)) == (x * denominator
                == numerator * pow2(30)) by {
            let s = signed(negative, n);
            // denominator == ±d * g and numerator == ±n * g with the signs that make s.
            assert((-n) * g == -(n * g)) by (nonlinear_arith);
            if denominator > 0 {
                assert(numerator == s * g);
                assert((x * d == s * p) == (x * (d * g) == (s * g) * p)) by (nonlinear_arith)
                    requires
                        g > 0,
                ;
            } else {
                assert(numerator == -(s * g));
                assert((x * d == s * p) == (x * (-(d * g)) == (-(s * g)) * p)) by (nonlinear_arith)
                    requires
                        g > 0,
                ;
            }
        }
    }

    /// A fraction whose denominator in lowest terms has an odd factor other
    /// than one is no dyadic rational number.
    proof fn lemma_not_dyadic(numerator: int, denominator: int, n: int, g: int, odd: int, k: nat)
        requires
            denominator != 0,
            g > 0,
            is_gcd(
                (if numerator < 0 {
                    -numerator
                } else {
                    numerator
                }) as nat,
                (if denominator < 0 {
                    -denominator
                } else {
                    denominator
                }) as nat,
                g as nat,
            ),
            n * g == (if numerator < 0 {
                -numerator
            } else {
                numerator
            }),
            odd * pow2(k) * g == (if denominator < 0 {
                -denominator
            } else {
                denominator
            }),
            odd > 1,
            odd % 2 == 1,
        ensures
            forall|x: Self| x.wf() ==> #[trigger] x.scaled() * denominator != numerator * pow2(30),
    {
        let p = pow2(30) as int;
        let t = pow2(k) as int;
        lemma_pow2_pos(k);
        let an: int = if numerator < 0 {
            -numerator
        } else {
            numerator
        };
        let ad: int = if denominator < 0 {
            -denominator
        } else {
            denominator
        };
        assert forall|x: Self| x.wf() implies #[trigger] x.scaled() * denominator != numerator
            * pow2(30) by {
            let v = x.scaled();
            if v * denominator == numerator * p {
                // An integer multiple of `odd` is `n * 2^30`, up to sign.
                let q: int = if (numerator < 0) == (denominator < 0) {
                    v * t
                } else {
                    -(v * t)
                };
                assert(n * p == q * odd) by (nonlinear_arith)
                    requires
                        v * denominator == numerator * p,
                        n * g == an,
                        odd * t * g == ad,
                        g > 0,
                        an == (if numerator < 0 {
                            -numerator
                        } else {
                            numerator
                        }),
                        ad == (if denominator < 0 {
                            -denominator
                        } else {
                            denominator
                        }),
                        q == (if (numerator < 0) == (denominator < 0) {
                            v * t
                        } else {
                            -(v * t)
                        }),
                ;
                let q2 = Self::lemma_odd_divides(odd, n, 30, q);
                // So `odd * g` divides both, and is greater than `g`.
                let c = odd * g;
                assert(an == q2 * c && ad == t * c && c > g) by (nonlinear_arith)
                    requires
                        n == q2 * odd,
                        n * g == an,
                        odd * t * g == ad,
                        c == odd * g,
                        odd > 1,
                        g > 0,
                ;
                vstd::arithmetic::div_mod::lemma_mod_multiples_basic(q2, c);
                vstd::arithmetic::div_mod::lemma_mod_multiples_basic(t, c);
                assert((ad as nat) % (c as nat) == 0);
                assert((an as nat) % (c as nat) == 0);
                assert(false);
            }
        }
    }

    /// An odd number that divides `y * 2^m` divides `y`.
    proof fn lemma_odd_divides(odd: int, y: int, m: nat, q: int) -> (r: int)
        requires
            odd % 2 == 1,
            y * pow2(m) == q * odd,
        ensures
            y == r * odd,
        decreases m,
    {
        if m == 0 {
            lemma2_to64();
            q
        } else {
            lemma_pow2_unfold(m);
            let h = pow2((m - 1) as nat) as int;
            let b = odd / 2;
            assert(odd == 2 * b + 1);
            if q % 2 != 0 {
                let a = q / 2;
                assert(q == 2 * a + 1);
                let e = 2 * a * b + a + b;
                assert((2 * a + 1) * (2 * b + 1) == 2 * e + 1) by (nonlinear_arith)
                    requires
                        e == 2 * a * b + a + b,
                ;
                assert(y * (2 * h) == 2 * (y * h)) by (nonlinear_arith);
                assert(false);
            }
            let a = q / 2;
            assert(q == 2 * a);
            assert(y * h == a * odd) by (nonlinear_arith)
                requires
                    y * (2 * h) == (2 * a) * odd,
            ;
            Self::lemma_odd_divides(odd, y, (m - 1) as nat, a)
        }
    }

    /// Convert to intger if it's an integer
    pub fn to_integer(&self) -> (r: Option<i32>)
        requires
            self.wf(),
        ensures
            r == (if self.spec_exponent() == 0 {
                Some(self.numerator())
            } else {
                None
            }),
    {
        if self.exponent == 0 {
            Some(self.numerator)
        } else {
            None
        }
    }

    /// Whether the number is an integer.
    pub fn is_integer(&self) -> (r: bool)
        ensures
            r == (self.spec_exponent() == 0),
    {
        self.exponent == 0
    }

    /// The denominator's inverse times `2^30`.
    pub open spec fn step(&self) -> int {
        pow2((30 - self.spec_exponent()) as nat) as int
    }

    /// The denominator's inverse in fixed point with 30 binary places.
    pub fn step_fixed(&self) -> (v: i64)
        requires
            self.wf(),
        ensures
            v == self.step(),
            1 <= v <= 0x4000_0000,
    {
        let p = power_of_two(MAX_EXPONENT - self.exponent);
        proof {
            lemma2_to64();
            if self.exponent > 0 {
                lemma_pow2_strictly_increases((30 - self.exponent) as nat, 30);
            }
        }
        p as i64
    }

    /// The number in fixed point with 30 binary places.
    pub fn to_fixed_point(&self) -> (v: i64)
        requires
            self.wf(),
        ensures
            v == self.scaled(),
            -0x2000_0000_0000_0000 <= v <= 0x2000_0000_0000_0000,
    {
        self.scaled_value()
    }

    /// The number times `2^30`.
    fn scaled_value(&self) -> (v: i64)
        requires
            self.wf(),
        ensures
            v == self.scaled(),
            -0x2000_0000_0000_0000 <= v <= 0x2000_0000_0000_0000,
    {
        let p = power_of_two(MAX_EXPONENT - self.exponent);
        proof {
            lemma2_to64();
            if self.exponent > 0 {
                lemma_pow2_strictly_increases((30 - self.exponent) as nat, 30);
            }
            let n = self.numerator as int;
            assert(-0x2000_0000_0000_0000 <= n * p <= 0x2000_0000_0000_0000) by (nonlinear_arith)
                requires
                    -0x8000_0000 <= n <= 0x7fff_ffff,
                    1 <= p <= 0x4000_0000,
            ;
        }
        (self.numerator as i64) * (p as i64)
    }

    /// The number with the value `v / 2^k`, if there is one.
    fn from_scaled(v: i64, k: u32) -> (r: Option<Self>)
        ensures
            r matches Some(d) ==> d.wf() && d.scaled() * pow2(k as nat) == v * pow2(30),
            r is None ==> forall|d: Self|
                d.wf() ==> #[trigger] d.scaled() * pow2(k as nat) != v * pow2(30),
    {
        let negative = v < 0;
        let magnitude: u64 = if v < 0 {
            if v == i64::MIN {
                0x8000_0000_0000_0000u64
            } else {
                (-v) as u64
            }
        } else {
            v as u64
        };
        Self::from_parts(negative, magnitude, k)
    }

    /// The sum of the two numbers, if it is within the limits.
    pub fn add(&self, rhs: &Self) -> (r: Option<Self>)
        requires
            self.wf(),
            rhs.wf(),
        ensures
            r matches Some(d) ==> d.wf() && d.scaled() == self.scaled() + rhs.scaled(),
            r is None ==> forall|d: Self|
                d.wf() ==> #[trigger] d.scaled() != self.scaled() + rhs.scaled(),
    {
        let v = self.scaled_value() + rhs.scaled_value();
        let r = Self::from_scaled(v, MAX_EXPONENT);
        proof {
            Self::lemma_cancel_scale(v as int);
        }
        r
    }

    /// The difference of the two numbers, if it is within the limits.
    pub fn sub(&self, rhs: &Self) -> (r: Option<Self>)
        requires
            self.wf(),
            rhs.wf(),
        ensures
            r matches Some(d) ==> d.wf() && d.scaled() == self.scaled() - rhs.scaled(),
            r is None ==> forall|d: Self|
                d.wf() ==> #[trigger] d.scaled() != self.scaled() - rhs.scaled(),
    {
        let v = self.scaled_value() - rhs.scaled_value();
        let r = Self::from_scaled(v, MAX_EXPONENT);
        proof {
            Self::lemma_cancel_scale(v as int);
        }
        r
    }

    /// The negative of the number, if it is within the limits.
    pub fn neg(&self) -> (r: Option<Self>)
        requires
            self.wf(),
        ensures
            r matches Some(d) ==> d.wf() && d.scaled() == -self.scaled(),
            r is None ==> forall|d: Self| d.wf() ==> #[trigger] d.scaled() != -self.scaled(),
    {
        let v = -self.scaled_value();
        let r = Self::from_scaled(v, MAX_EXPONENT);
        proof {
            Self::lemma_cancel_scale(v as int);
        }
        r
    }

    /// The number times the integer `factor`, if it is within the limits.
    pub fn mul_integer(&self, factor: i32) -> (r: Option<Self>)
        requires
            self.wf(),
        ensures
            r matches Some(d) ==> d.wf() && d.scaled() == self.scaled() * factor,
            r is None ==> forall|d: Self| d.wf() ==> #[trigger] d.scaled() != self.scaled() * factor,
    {
        proof {
            let a = self.numerator as int;
            let b = factor as int;
            assert(-0x4000_0000_0000_0000 <= a * b <= 0x4000_0000_0000_0000) by (nonlinear_arith)
                requires
                    -0x8000_0000 <= a <= 0x7fff_ffff,
                    -0x8000_0000 <= b <= 0x7fff_ffff,
            ;
        }
        let n = (self.numerator as i64) * (factor as i64);
        let r = Self::from_scaled(n, self.exponent);
        proof {
            let k = self.exponent as nat;
            lemma_pow2_adds((30 - k) as nat, k);
            lemma_pow2_pos(k);
            let a = pow2((30 - k) as nat) as int;
            let p = pow2(k) as int;
            let s = self.numerator as int;
            let f = factor as int;
            assert forall|d: Self| d.wf() implies (#[trigger] d.scaled() * pow2(k) == n * pow2(30))
                == (d.scaled() == self.scaled() * factor) by {
                let x = d.scaled();
                assert((x * p == (s * f) * (a * p)) == (x == (s * a) * f)) by (nonlinear_arith)
                    requires
                        p > 0,
                ;
            }
        }
        r
    }

    /// The number divided by `2^shift`, if it is within the limits.
    pub fn div_power_of_two(&self, shift: u16) -> (r: Option<Self>)
        requires
            self.wf(),
        ensures
            r matches Some(d) ==> d.wf() && d.scaled() * pow2(shift as nat) == self.scaled(),
            r is None ==> forall|d: Self|
                d.wf() ==> #[trigger] d.scaled() * pow2(shift as nat) != self.scaled(),
    {
        let r = Self::from_scaled(self.numerator as i64, self.exponent + shift as u32);
        proof {
            let k = self.exponent as nat;
            let j = shift as nat;
            lemma_pow2_adds(k, j);
            lemma_pow2_adds((30 - k) as nat, k);
            lemma_pow2_pos(k);
            let a = pow2((30 - k) as nat) as int;
            let pk = pow2(k) as int;
            let pj = pow2(j) as int;
            let s = self.numerator as int;
            assert forall|d: Self| d.wf() implies (#[trigger] d.scaled() * pow2(k + j) == s * pow2(30))
                == (d.scaled() * pow2(j) == self.scaled()) by {
                let x = d.scaled();
                assert((x * (pk * pj) == s * (a * pk)) == (x * pj == s * a)) by (nonlinear_arith)
                    requires
                        pk > 0,
                ;
            }
        }
        r
    }

    /// Multiplying both sides by `2^30` changes no equation.
    proof fn lemma_cancel_scale(v: int)
        ensures
            forall|x: int| (#[trigger] (x * pow2(30)) == v * pow2(30)) == (x == v),
    {
        lemma_pow2_pos(30);
        let p = pow2(30) as int;
        assert forall|x: int| (#[trigger] (x * pow2(30)) == v * pow2(30)) == (x == v) by {
            assert((x * p == v * p) == (x == v)) by (nonlinear_arith)
                requires
                    p > 0,
            ;
        }
    }

    /// The mean of the two numbers, if it is within the limits.
    pub fn mean(&self, rhs: &Self) -> (r: Option<Self>)
        requires
            self.wf(),
            rhs.wf(),
        ensures
            r matches Some(d) ==> d.wf() && 2 * d.scaled() == self.scaled() + rhs.scaled(),
            r is None ==> forall|d: Self|
                d.wf() ==> 2 * #[trigger] d.scaled() != self.scaled() + rhs.scaled(),
    {
        let v = self.scaled_value() + rhs.scaled_value();
        let r = Self::from_scaled(v, MAX_EXPONENT + 1);
        proof {
            lemma_pow2_unfold(31);
            lemma_pow2_pos(30);
            let p = pow2(30) as int;
            assert forall|d: Self| d.wf() implies (#[trigger] d.scaled() * pow2(31) == v * pow2(30))
                == (2 * d.scaled() == v) by {
                let x = d.scaled();
                assert((x * (2 * p) == v * p) == (2 * x == v)) by (nonlinear_arith)
                    requires
                        p > 0,
                ;
            }
        }
        r
    }

    /// Whether this number is less than `rhs`.
    pub fn lt(&self, rhs: &Self) -> (r: bool)
        requires
            self.wf(),
            rhs.wf(),
        ensures
            r == (self.scaled() < rhs.scaled()),
    {
        self.scaled_value() < rhs.scaled_value()
    }

    /// Whether this number is at most `rhs`.
    pub fn le(&self, rhs: &Self) -> (r: bool)
        requires
            self.wf(),
            rhs.wf(),
        ensures
            r == (self.scaled() <= rhs.scaled()),
    {
        self.scaled_value() <= rhs.scaled_value()
    }

    /// How this number stands to `rhs`.
    pub fn compare(&self, rhs: &Self) -> (r: Relation)
        requires
            self.wf(),
            rhs.wf(),
        ensures
            r == (if self.scaled() < rhs.scaled() {
                Relation::Less
            } else if self.scaled() == rhs.scaled() {
                Relation::Equal
            } else {
                Relation::Greater
            }),
    {
        let a = self.scaled_value();
        let b = rhs.scaled_value();
        if a < b {
            Relation::Less
        } else if a == b {
            Relation::Equal
        } else {
            Relation::Greater
        }
    }

    /// The greatest integer that is not above this number.
    pub fn floor(&self) -> (r: i32)
        requires
            self.wf(),
        ensures
            r * pow2(self.spec_exponent() as nat) <= self.numerator() < (r + 1) * pow2(
                self.spec_exponent() as nat,
            ),
    {
        let d = power_of_two(self.exponent) as i64;
        proof {
            lemma2_to64();
            if self.exponent < 30 {
                lemma_pow2_strictly_increases(self.exponent as nat, 30);
            }
        }
        let n = self.numerator as i64;
        if n >= 0 {
            let q = n / d;
            proof {
                vstd::arithmetic::div_mod::lemma_fundamental_div_mod(n as int, d as int);
                vstd::arithmetic::div_mod::lemma_mod_bound(n as int, d as int);
                assert(q * d == d * q) by (nonlinear_arith);
                assert((q + 1) * d == q * d + d) by (nonlinear_arith);
                assert(0 <= q <= n) by (nonlinear_arith)
                    requires
                        q * d <= n,
                        n < (q + 1) * d,
                        d >= 1,
                        n >= 0,
                ;
            }
            q as i32
        } else {
            let m = -n;
            let q = (m + d - 1) / d;
            proof {
                let x = (m + d - 1) as int;
                vstd::arithmetic::div_mod::lemma_fundamental_div_mod(x, d as int);
                vstd::arithmetic::div_mod::lemma_mod_bound(x, d as int);
                assert(q * d == d * q) by (nonlinear_arith);
                assert((-q) * d == -(q * d)) by (nonlinear_arith);
                assert((-q + 1) * d == -(q * d) + d) by (nonlinear_arith);
                assert(0 <= q <= m) by (nonlinear_arith)
                    requires
                        q * d <= m + d - 1,
                        m + d - 1 < q * d + d,
                        d >= 1,
                        m >= 1,
                ;
            }
            (-q) as i32
        }
    }

    /// The magnitude of the numerator.
    pub open spec fn magnitude(&self) -> int {
        if self.numerator() < 0 {
            -self.numerator()
        } else {
            self.numerator() as int
        }
    }

    /// This number is at least as simple as `x`: its denominator is
    /// smaller, or the same with a numerator of no greater magnitude.
    pub open spec fn simple_as(&self, x: Self) -> bool {
        self.spec_exponent() < x.spec_exponent() || (self.spec_exponent() == x.spec_exponent()
            && self.magnitude() <= x.magnitude())
    }

    /// `r` is the simplest number strictly between `a` and `b`: it lies
    /// between them, and is at least as simple as every number between them.
    pub open spec fn is_simplest_between(a: Self, b: Self, r: Self) -> bool {
        &&& a.scaled() < r.scaled() < b.scaled()
        &&& forall|x: Self|
            x.wf() && a.scaled() < #[trigger] x.scaled() < b.scaled() ==> r.simple_as(x)
    }

    /// The simplest number between two numbers is one number.
    pub proof fn lemma_simplest_unique(a: Self, b: Self, d: Self, e: Self)
        requires
            d.wf(),
            e.wf(),
            Self::is_simplest_between(a, b, d),
            Self::is_simplest_between(a, b, e),
        ensures
            d == e,
    {
        assert(d.simple_as(e) && e.simple_as(d));
        let k = d.spec_exponent() as nat;
        lemma_pow2_pos((30 - k) as nat);
        let p = pow2((30 - k) as nat) as int;
        let n = d.numerator() as int;
        let m = e.numerator() as int;
        if n != m {
            // Then one is the negative of the other, and zero lies between.
            assert(n == -m);
            let zero = Self::spec_integer(0);
            assert(zero.scaled() == 0) by (nonlinear_arith)
                requires
                    zero.scaled() == 0 * pow2(30),
            ;
            assert(a.scaled() < zero.scaled() < b.scaled()) by (nonlinear_arith)
                requires
                    a.scaled() < n * p < b.scaled(),
                    a.scaled() < (-n) * p < b.scaled(),
                    zero.scaled() == 0,
                    p > 0,
            ;
            assert(d.simple_as(zero));
        }
    }

    /// The simplest number strictly between `a` and `b`: the integer of
    /// least magnitude between them if there is an integer, else the number
    /// with the least denominator. There is none exactly when no dyadic
    /// rational number within the limits lies strictly between the two.
    pub fn simplest_between(a: &Self, b: &Self) -> (r: Option<Self>)
        requires
            a.wf(),
            b.wf(),
        ensures
            r matches Some(d) ==> d.wf() && Self::is_simplest_between(*a, *b, d),
            r is None ==> forall|x: Self|
                x.wf() ==> !(a.scaled() < #[trigger] x.scaled() < b.scaled()),
    {
        let sa = a.scaled_value();
        let sb = b.scaled_value();
        if sa >= sb {
            return None;
        }
        if sa < 0 && 0 < sb {
            let zero = DyadicRationalNumber { numerator: 0, exponent: 0 };
            proof {
                assert(zero.scaled() == 0) by (nonlinear_arith)
                    requires
                        zero.scaled() == 0 * pow2(30),
                ;
            }
            return Some(zero);
        }
        let mirrored = sa < 0;
        let (lo, hi): (u64, u64) = if mirrored {
            ((-sb) as u64, (-sa) as u64)
        } else {
            (sa as u64, sb as u64)
        };
        match simplest_above(lo, hi) {
            Some((n, k)) => {
                let numerator: i32 = if mirrored {
                    -(n as i32)
                } else {
                    n as i32
                };
                let d = DyadicRationalNumber { numerator, exponent: k };
                proof {
                    let p = pow2((30 - k) as nat) as int;
                    assert((-(n as int)) * p == -((n as int) * p)) by (nonlinear_arith);
                    assert forall|x: Self|
                        x.wf() && a.scaled() < #[trigger] x.scaled() < b.scaled() implies d.simple_as(
                        x,
                    ) by {
                        let j = x.spec_exponent() as nat;
                        let t: int = if mirrored {
                            -x.numerator()
                        } else {
                            x.numerator() as int
                        };
                        let pj = pow2((30 - j) as nat) as int;
                        assert((-(x.numerator() as int)) * pj == -((x.numerator() as int) * pj))
                            by (nonlinear_arith);
                        assert(lo < multiple(t, j) < hi);
                        if j < k {
                            assert(false);
                        }
                    }
                }
                Some(d)
            },
            None => {
                proof {
                    assert forall|x: Self| x.wf() implies !(a.scaled() < #[trigger] x.scaled()
                        < b.scaled()) by {
                        let j = x.spec_exponent() as nat;
                        let t: int = if mirrored {
                            -x.numerator()
                        } else {
                            x.numerator() as int
                        };
                        let pj = pow2((30 - j) as nat) as int;
                        assert((-(x.numerator() as int)) * pj == -((x.numerator() as int) * pj))
                            by (nonlinear_arith);
                        if a.scaled() < x.scaled() < b.scaled() {
                            assert(lo < multiple(t, j) < hi);
                            if t > 0x7fff_ffff {
                                // Only the negative of the least numerator is that large.
                                assert(mirrored && x.numerator() == i32::MIN);
                                lemma_pow2_pos((30 - j) as nat);
                                assert(j == 0);
                                lemma2_to64();
                                assert(x.scaled() == -0x8000_0000 * 0x4000_0000);
                                assert(false);
                            }
                        }
                    }
                }
                None
            },
        }
    }

    /// The text of the number.
    pub open spec fn text(&self) -> Seq<char> {
        if self.spec_exponent() == 0 {
            signed_decimal(self.numerator() as int)
        } else {
            signed_decimal(self.numerator() as int) + seq!['/'] + signed_decimal(
                pow2(self.spec_exponent() as nat) as int,
            )
        }
    }

    /// Appends the text of the number to `out`: the numerator, and the
    /// denominator after a `/` unless the number is an integer.
    pub fn render(&self, out: &mut Vec<char>)
        requires
            self.wf(),
        ensures
            final(out)@ == old(out)@ + self.text(),
    {
        push_signed_decimal(out, self.numerator as i64);
        if self.exponent != 0 {
            out.push('/');
            let d = self.denominator();
            push_signed_decimal(out, d as i64);
            assert(out@ =~= old(out)@ + self.text());
        }
    }

    /// The number as text: `p` for an integer, else `p/q`.
    pub fn to_string(&self) -> (out: String)
        requires
            self.wf(),
        ensures
            out@ == self.text(),
    {
        let mut chars: Vec<char> = Vec::new();
        self.render(&mut chars);
        assert(chars@ =~= self.text());
        string_of(&chars)
    }
}

} // verus!
