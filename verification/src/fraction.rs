//! Exact rational numbers `numerator / denominator`, always kept in lowest
//! terms with a strictly positive denominator.
use vstd::prelude::*;
use crate::text::{
    all_digit_chars, decimal, digits_value, law_decimal_reads_back, law_signed_decimal_reads_back,
    push_char, push_decimal, push_signed_decimal, signed_decimal, signed_digits_value,
};
use crate::gcd::{abs, divides, gcd, gcd_u128, gcd_u64, lemma_common_divisor_divides_gcd, lemma_divides_by_witness, lemma_divides_le, lemma_divides_witness, lemma_gcd_divides, lemma_gcd_reduced, lemma_reduced_unique};
use vstd::arithmetic::power2::{lemma2_to64, lemma2_to64_rest, lemma_pow2_unfold, pow2};

verus! {

/// True when `x` fits in an `i64`.
pub open spec fn fits_i64(x: int) -> bool {
    i64::MIN <= x <= i64::MAX
}

/// The lowest-terms form of `n / d` (for `d != 0`): both parts are divided
/// by their gcd and the sign is carried by the numerator.
pub open spec fn reduce(n: int, d: int) -> (int, int) {
    let g = gcd(abs(n) as nat, abs(d) as nat) as int;
    let m = abs(n) / g;
    (if (n < 0) != (d < 0) { -m } else { m }, abs(d) / g)
}

/// The pair that a `Fraction` holds for `n / d`, or `None` when `d == 0` or
/// when the lowest-terms form does not fit an `i64` numerator and a `u64`
/// denominator.
pub open spec fn ratio(n: int, d: int) -> Option<(int, int)> {
    if d == 0 {
        None
    } else {
        let r = reduce(n, d);
        if fits_i64(r.0) && r.1 <= u64::MAX {
            Some(r)
        } else {
            None
        }
    }
}

/// A pair in lowest terms: positive denominator, no common factor.
pub open spec fn lowest_terms(n: int, d: int) -> bool {
    d > 0 && gcd(abs(n) as nat, d as nat) == 1
}

/// Represents an exact rational fraction `numerator / denominator`.
///
/// Fractions are kept reduced to lowest terms, with the denominator strictly
/// positive, so two fractions are equal exactly when they denote the same
/// rational number.
#[derive(Debug, Clone, Copy, PartialEq, Eq, Hash, Structural)]
pub struct Fraction {
    numer: i64,
    denom: u64,
}

impl View for Fraction {
    type V = (int, int);

    /// The pair (numerator, denominator).
    closed spec fn view(&self) -> (int, int) {
        (self.numer as int, self.denom as int)
    }
}

impl DeepView for Fraction {
    type V = (int, int);

    open spec fn deep_view(&self) -> (int, int) {
        self@
    }
}

/// `gcd(0, d) == d` and `gcd(n, 1) == 1`.
pub proof fn lemma_gcd_zero_one(d: nat, n: nat)
    ensures
        gcd(0, d) == d,
        gcd(n, 1) == 1,
{
    if d != 0 {
        assert(0nat % d == 0) by (nonlinear_arith)
            requires
                d != 0,
        ;
        assert(gcd(0, d) == gcd(d, 0));
    }
    assert(n % 1 == 0) by (nonlinear_arith);
    assert(gcd(n, 1) == gcd(1, 0));
}

/// The reduced form of `n / d` is in lowest terms, denotes the same rational
/// number, and has parts no larger in magnitude than `n` and `d`.
pub proof fn lemma_reduce(n: int, d: int)
    requires
        d != 0,
    ensures
        lowest_terms(reduce(n, d).0, reduce(n, d).1),
        reduce(n, d).0 * d == n * reduce(n, d).1,
        abs(reduce(n, d).0) <= abs(n),
        0 < reduce(n, d).1 <= abs(d),
        n == 0 ==> reduce(n, d) == (0int, 1int),
{
    let an = abs(n) as nat;
    let ad = abs(d) as nat;
    lemma_gcd_divides(an, ad);
    lemma_gcd_reduced(an, ad);
    let g = gcd(an, ad) as int;
    let m = an as int / g;
    let e = ad as int / g;
    lemma_divides_witness(an as int, g);
    lemma_divides_witness(ad as int, g);
    assert(m >= 0 && e > 0) by (nonlinear_arith)
        requires
            an as int == g * m,
            ad as int == g * e,
            g > 0,
            ad > 0,
            an >= 0,
    ;
    assert(m <= an && e <= ad) by (nonlinear_arith)
        requires
            an as int == g * m,
            ad as int == g * e,
            g > 0,
            m >= 0,
            e > 0,
    ;
    let r = reduce(n, d);
    assert(r.1 == e);
    assert(abs(r.0) == m);
    assert(gcd(abs(r.0) as nat, r.1 as nat) == 1);
    assert(m * ad == an * e) by (nonlinear_arith)
        requires
            an as int == g * m,
            ad as int == g * e,
    ;
    if n == 0 {
        lemma_gcd_zero_one(ad, 0);
        assert(m == 0);
        assert(e == 1) by (nonlinear_arith)
            requires
                ad as int == g * e,
                g == ad as int,
                ad > 0,
        ;
    } else if n > 0 && d > 0 {
        assert(r.0 == m);
    } else if n > 0 && d < 0 {
        assert(r.0 == -m);
        assert(r.0 * d == n * r.1) by (nonlinear_arith)
            requires
                m * ad == an * e,
                ad == -d,
                an == n,
                r.0 == -m,
                r.1 == e,
        ;
    } else if n < 0 && d > 0 {
        assert(r.0 == -m);
        assert(r.0 * d == n * r.1) by (nonlinear_arith)
            requires
                m * ad == an * e,
                ad == d,
                an == -n,
                r.0 == -m,
                r.1 == e,
        ;
    } else {
        assert(r.0 == m);
        assert(r.0 * d == n * r.1) by (nonlinear_arith)
            requires
                m * ad == an * e,
                ad == -d,
                an == -n,
                r.0 == m,
                r.1 == e,
        ;
    }
}

/// The magnitude of an `i64`, as `u128` (`i64::MIN` included).
fn magnitude(n: i64) -> (m: u128)
    ensures
        m as int == abs(n as int),
        m <= 0x8000_0000_0000_0000,
{
    if n < 0 {
        (0i128 - n as i128) as u128
    } else {
        n as u128
    }
}

impl Fraction {
    /// Fractions are kept in lowest terms with a positive denominator.
    #[verifier::type_invariant]
    pub closed spec fn wf(self) -> bool {
        lowest_terms(self.numer as int, self.denom as int)
    }

    /// Applies a sign to a magnitude, if the result fits an `i64`.
    fn signed_numerator(magnitude: u128, negative: bool) -> (r: Option<i64>)
        ensures
            r == (if fits_i64(if negative { -magnitude } else { magnitude as int }) {
                Some((if negative { -magnitude } else { magnitude as int }) as i64)
            } else {
                None::<i64>
            }),
    {
        if negative {
            if magnitude <= 0x8000_0000_0000_0000u128 {
                Some((0i128 - magnitude as i128) as i64)
            } else {
                None
            }
        } else {
            if magnitude <= 0x7fff_ffff_ffff_ffffu128 {
                Some(magnitude as i64)
            } else {
                None
            }
        }
    }

    /// The lowest-terms fraction for `±numer / denom` (minus when `negative`),
    /// or `None` when `denom` is zero or the result does not fit.
    pub(crate) fn from_magnitudes(numer: u128, denom: u128, negative: bool) -> (r: Option<Self>)
        ensures
            r.deep_view() == ratio(if negative { -numer } else { numer as int }, denom as int),
    {
        let ghost n: int = if negative { -numer } else { numer as int };
        if denom == 0 {
            return None;
        }
        proof {
            lemma_reduce(n, denom as int);
        }
        if numer == 0 {
            proof {
                lemma_gcd_zero_one(1, 0);
            }
            return Some(Self::from_integer(0));
        }
        let g = gcd_u128(numer, denom);
        proof {
            assert(abs(n) == numer);
            assert(gcd(abs(n) as nat, abs(denom as int) as nat) == g);
            lemma_gcd_divides(numer as nat, denom as nat);
            vstd::arithmetic::div_mod::lemma_div_is_ordered_by_denominator(numer as int, 1, g as int);
            vstd::arithmetic::div_mod::lemma_div_is_ordered_by_denominator(denom as int, 1, g as int);
        }
        let rn = numer / g;
        let rd = denom / g;
        let ghost r = reduce(n, denom as int);
        assert(rd as int == r.1);
        assert(rn as int == abs(r.0));
        let sn = match Self::signed_numerator(rn, negative) {
            Some(v) => v,
            None => {
                return None;
            },
        };
        if rd > 0xffff_ffff_ffff_ffffu128 {
            return None;
        }
        assert(sn as int == r.0);
        Some(Fraction { numer: sn, denom: rd as u64 })
    }

    /// Creates a new `Fraction` reduced to lowest terms.
    ///
    /// A negative denominator is normalized by moving its sign to the numerator.
    /// A zero denominator yields `0/1`. The normalized numerator must be
    /// representable by `i64`; `requires` leaves out the inputs where it is
    /// not (such as `i64::MIN / -1`).
    pub fn new(numer: i64, denom: i64) -> (r: Self)
        requires
            denom == 0 || ratio(numer as int, denom as int) is Some,
        ensures
            denom == 0 ==> r@ == (0int, 1int),
            denom != 0 ==> Some(r@) == ratio(numer as int, denom as int),
    {
        if denom == 0 {
            return Self::from_integer(0);
        }
        match Self::try_new(numer, denom) {
            Some(f) => f,
            None => {
                proof {
                    assert(false);
                }
                Self::from_integer(0)
            },
        }
    }

    /// Fallible constructor that returns `None` when the denominator is zero or
    /// normalization would produce a numerator outside the `i64` range.
    pub fn try_new(numer: i64, denom: i64) -> (r: Option<Self>)
        ensures
            r.deep_view() == ratio(numer as int, denom as int),
    {
        if denom == 0 {
            return None;
        }
        let negative = (numer < 0) != (denom < 0);
        let r = Self::from_magnitudes(magnitude(numer), magnitude(denom), negative);
        proof {
            let n = numer as int;
            let d = denom as int;
            let sn: int = if negative { -abs(n) } else { abs(n) };
            assert(abs(sn) == abs(n));
            assert(abs(abs(d)) == abs(d));
            if n != 0 {
                assert((sn < 0) == ((n < 0) != (d < 0)));
                assert(reduce(sn, abs(d)) == reduce(n, d));
            } else {
                lemma_reduce(sn, abs(d));
                lemma_reduce(n, d);
            }
        }
        r
    }

    /// Creates a reduced fraction from a numerator and a positive denominator.
    ///
    /// Unlike [`new`](Self::new), this accepts denominators through the full `u64`
    /// range and cannot fail.
    pub fn new_nonzero(numer: i64, denom: u64) -> (r: Self)
        requires
            denom > 0,
        ensures
            Some(r@) == ratio(numer as int, denom as int),
    {
        let m = magnitude(numer) as u64;
        let g = gcd_u64(m, denom);
        proof {
            lemma_reduce(numer as int, denom as int);
            assert(g == gcd(abs(numer as int) as nat, abs(denom as int) as nat));
            lemma_gcd_divides(m as nat, denom as nat);
            vstd::arithmetic::div_mod::lemma_div_is_ordered_by_denominator(m as int, 1, g as int);
            vstd::arithmetic::div_mod::lemma_div_is_ordered_by_denominator(denom as int, 1, g as int);
        }
        let numer_magnitude = m / g;
        let d = denom / g;
        let sn = match Self::signed_numerator(numer_magnitude as u128, numer < 0) {
            Some(v) => v,
            None => {
                proof {
                    assert(false);
                }
                0
            },
        };
        Fraction { numer: sn, denom: d }
    }

    /// Creates a fraction from an integer `n / 1`.
    pub fn from_integer(n: i64) -> (r: Self)
        ensures
            r@ == (n as int, 1int),
    {
        proof {
            lemma_gcd_zero_one(1, abs(n as int) as nat);
        }
        Fraction { numer: n, denom: 1 }
    }

    /// Returns the numerator of the fraction.
    pub fn numer(&self) -> (r: i64)
        ensures
            r as int == self@.0,
    {
        self.numer
    }

    /// Returns the denominator of the fraction (guaranteed > 0).
    pub fn denom(&self) -> (r: u64)
        ensures
            r as int == self@.1,
            r > 0,
    {
        proof {
            use_type_invariant(self);
        }
        self.denom
    }

    /// Returns the denominator, which is never zero.
    pub fn denom_nonzero(&self) -> (r: u64)
        ensures
            r as int == self@.1,
            r != 0,
    {
        proof {
            use_type_invariant(self);
        }
        self.denom
    }

    /// Returns true if the fraction is an integer (denominator is 1).
    pub fn is_integer(&self) -> (r: bool)
        ensures
            r == (self@.1 == 1),
    {
        self.denom == 1
    }
}

/// The last two convergents `h/k` of a continued fraction, as the
/// recurrence `h_n = a_n * h_(n-1) + h_(n-2)`, `k_n = a_n * k_(n-1) + k_(n-2)`
/// keeps them. All four terms are never negative.
pub struct Convergents {
    h_prev: i64,
    h_curr: i64,
    k_prev: i64,
    k_curr: i64,
}

impl View for Convergents {
    /// `(h_prev, h_curr, k_prev, k_curr)`.
    type V = (int, int, int, int);

    closed spec fn view(&self) -> (int, int, int, int) {
        (self.h_prev as int, self.h_curr as int, self.k_prev as int, self.k_curr as int)
    }
}

/// The terms after taking the partial quotient `a`.
pub open spec fn next_convergent(c: (int, int, int, int), a: int) -> (int, int, int, int) {
    (c.1, a * c.1 + c.0, c.3, a * c.3 + c.2)
}

/// The recurrence overflows `i64` when taking the partial quotient `a`.
pub open spec fn convergent_overflows(c: (int, int, int, int), a: int) -> bool {
    !(fits_i64(a * c.1) && fits_i64(a * c.1 + c.0) && fits_i64(a * c.3) && fits_i64(
        a * c.3 + c.2,
    ))
}

/// What one step of the recurrence gives.
pub enum ConvergentStep {
    /// The next convergents.
    Next(Convergents),
    /// The next denominator would pass the bound: the current convergent is
    /// the answer.
    Stop,
    /// A term does not fit an `i64`.
    Overflow,
}

impl Convergents {
    /// All terms are never negative.
    #[verifier::type_invariant]
    closed spec fn nonnegative(self) -> bool {
        self.h_prev >= 0 && self.h_curr >= 0 && self.k_prev >= 0 && self.k_curr >= 0
    }

    /// The seed of the recurrence: `h_(-1) = 0, h_0 = 1, k_(-1) = 1, k_0 = 0`.
    pub fn start() -> (c: Self)
        ensures
            c@ == (0int, 1int, 1int, 0int),
    {
        Convergents { h_prev: 0, h_curr: 1, k_prev: 1, k_curr: 0 }
    }

    /// Take the next partial quotient `a` (the floor of a non-negative
    /// remainder): the next convergents, unless a term overflows, or unless
    /// the next denominator exceeds `max_denom`.
    pub fn step(&self, a: i64, max_denom: i64) -> (r: ConvergentStep)
        requires
            a >= 0,
        ensures
            r is Overflow <==> convergent_overflows(self@, a as int),
            r is Stop <==> !convergent_overflows(self@, a as int) && next_convergent(
                self@,
                a as int,
            ).3 > max_denom,
            r matches ConvergentStep::Next(n) ==> n@ == next_convergent(self@, a as int)
                && n@.3 <= max_denom,
    {
        proof {
            use_type_invariant(self);
        }
        let h_mul = match a.checked_mul(self.h_curr) {
            Some(x) => x,
            None => {
                return ConvergentStep::Overflow;
            },
        };
        let h_next = match h_mul.checked_add(self.h_prev) {
            Some(x) => x,
            None => {
                return ConvergentStep::Overflow;
            },
        };
        let k_mul = match a.checked_mul(self.k_curr) {
            Some(x) => x,
            None => {
                return ConvergentStep::Overflow;
            },
        };
        let k_next = match k_mul.checked_add(self.k_prev) {
            Some(x) => x,
            None => {
                return ConvergentStep::Overflow;
            },
        };
        if k_next > max_denom {
            return ConvergentStep::Stop;
        }
        assert(h_mul >= 0 && k_mul >= 0) by (nonlinear_arith)
            requires
                h_mul == a * self.h_curr,
                k_mul == a * self.k_curr,
                a >= 0,
                self.h_curr >= 0,
                self.k_curr >= 0,
        ;
        ConvergentStep::Next(
            Convergents { h_prev: self.h_curr, h_curr: h_next, k_prev: self.k_curr, k_curr: k_next },
        )
    }

    /// The fraction of the current convergent, negated when `negative`: the
    /// integer `±h` while no denominator was taken yet.
    pub fn finish(&self, negative: bool) -> (r: Fraction)
        ensures
            self@.3 == 0 ==> r@ == (signed(self@.1, negative), 1int),
            self@.3 != 0 ==> Some(r@) == ratio(signed(self@.1, negative), self@.3),
    {
        proof {
            use_type_invariant(self);
        }
        let n = if negative { 0 - self.h_curr } else { self.h_curr };
        if self.k_curr == 0 {
            Fraction::from_integer(n)
        } else {
            Fraction::new_nonzero(n, self.k_curr as u64)
        }
    }
}

/// `|n| * d` for an `i64` numerator and a `u64` denominator fits in `u128`
/// with room for one addition.
proof fn lemma_product_bound(m: u128, d: u64)
    requires
        m <= 0x8000_0000_0000_0000,
    ensures
        m * d <= 0x7fff_ffff_ffff_ffff_8000_0000_0000_0000,
{
    assert(m * d <= 0x8000_0000_0000_0000 * 0xffff_ffff_ffff_ffff) by (nonlinear_arith)
        requires
            m <= 0x8000_0000_0000_0000,
            d <= 0xffff_ffff_ffff_ffff,
    ;
}

/// A magnitude with a sign flag, read as an integer.
pub open spec fn signed(m: int, negative: bool) -> int {
    if negative {
        -m
    } else {
        m
    }
}

impl Fraction {
    /// Checked addition. Returns `None` when the sum does not fit.
    pub fn checked_add(self, rhs: Self) -> (r: Option<Self>)
        ensures
            r.deep_view() == ratio(self@.0 * rhs@.1 + rhs@.0 * self@.1, self@.1 * rhs@.1),
    {
        self.checked_add_with_rhs_sign(rhs, false)
    }

    /// Checked subtraction. Returns `None` when the difference does not fit.
    pub fn checked_sub(self, rhs: Self) -> (r: Option<Self>)
        ensures
            r.deep_view() == ratio(self@.0 * rhs@.1 - rhs@.0 * self@.1, self@.1 * rhs@.1),
    {
        let r = self.checked_add_with_rhs_sign(rhs, true);
        assert((-rhs@.0) * self@.1 == -(rhs@.0 * self@.1)) by (nonlinear_arith);
        r
    }

    /// Checked multiplication. Returns `None` when the product does not fit.
    pub fn checked_mul(self, rhs: Self) -> (r: Option<Self>)
        ensures
            r.deep_view() == ratio(self@.0 * rhs@.0, self@.1 * rhs@.1),
    {
        proof {
            use_type_invariant(self);
            use_type_invariant(rhs);
        }
        let a = magnitude(self.numer);
        let b = magnitude(rhs.numer);
        assert(a * b <= 0x8000_0000_0000_0000 * 0x8000_0000_0000_0000) by (nonlinear_arith)
            requires
                a <= 0x8000_0000_0000_0000,
                b <= 0x8000_0000_0000_0000,
        ;
        let n = a * b;
        assert((self.denom as u128) * (rhs.denom as u128) <= 0xffff_ffff_ffff_ffff * 0xffff_ffff_ffff_ffffu128) by (nonlinear_arith);
        let d = (self.denom as u128) * (rhs.denom as u128);
        let negative = (self.numer < 0) != (rhs.numer < 0);
        proof {
            let x = self@.0;
            let y = rhs@.0;
            assert(signed(n as int, negative) == x * y) by (nonlinear_arith)
                requires
                    a as int == abs(x),
                    b as int == abs(y),
                    n as int == a * b,
                    negative == ((x < 0) != (y < 0)),
            ;
        }
        Self::from_magnitudes(n, d, negative)
    }

    /// Checked division. Returns `None` if the divisor is zero or the
    /// quotient does not fit.
    pub fn checked_div(self, rhs: Self) -> (r: Option<Self>)
        ensures
            rhs@.0 == 0 ==> r is None,
            rhs@.0 != 0 ==> r.deep_view() == ratio(self@.0 * rhs@.1, self@.1 * rhs@.0),
    {
        proof {
            use_type_invariant(self);
            use_type_invariant(rhs);
        }
        if rhs.numer == 0 {
            return None;
        }
        let a = magnitude(self.numer);
        let b = magnitude(rhs.numer);
        proof {
            lemma_product_bound(a, rhs.denom);
            lemma_product_bound(b, self.denom);
        }
        let n = a * (rhs.denom as u128);
        let d = b * (self.denom as u128);
        let negative = (self.numer < 0) != (rhs.numer < 0);
        proof {
            let x = self@.0;
            let y = rhs@.0;
            let e = rhs@.1;
            let f = self@.1;
            let sn = signed(n as int, negative);
            let sd = d as int;
            if y > 0 {
                assert(sn == x * e) by (nonlinear_arith)
                    requires
                        sn == (if negative { -(n as int) } else { n as int }),
                        n as int == a * e,
                        a as int == abs(x),
                        negative == (x < 0),
                ;
                assert(sd == f * y) by (nonlinear_arith)
                    requires
                        sd == b * f,
                        b as int == y,
                ;
            } else {
                assert(sn == -(x * e)) by (nonlinear_arith)
                    requires
                        sn == (if negative { -(n as int) } else { n as int }),
                        n as int == a * e,
                        a as int == abs(x),
                        negative == (x >= 0),
                ;
                assert(sd == -(f * y)) by (nonlinear_arith)
                    requires
                        sd == b * f,
                        b as int == -y,
                ;
                assert((x * e) * sd == sn * (f * y)) by (nonlinear_arith)
                    requires
                        sn == -(x * e),
                        sd == -(f * y),
                ;
                assert(f * y != 0) by (nonlinear_arith)
                    requires
                        f > 0,
                        y != 0,
                ;
                lemma_ratio_sign_move(x * e, f * y, sn, sd);
            }
        }
        Self::from_magnitudes(n, d, negative)
    }

    fn checked_add_with_rhs_sign(self, rhs: Self, negate_rhs: bool) -> (r: Option<Self>)
        ensures
            r.deep_view() == ratio(
                self@.0 * rhs@.1 + signed(rhs@.0, negate_rhs) * self@.1,
                self@.1 * rhs@.1,
            ),
    {
        proof {
            use_type_invariant(self);
            use_type_invariant(rhs);
        }
        let lm = magnitude(self.numer);
        let rm = magnitude(rhs.numer);
        proof {
            lemma_product_bound(lm, rhs.denom);
            lemma_product_bound(rm, self.denom);
        }
        let lhs = lm * (rhs.denom as u128);
        let rhs_magnitude = rm * (self.denom as u128);
        let lhs_negative = self.numer < 0;
        let rhs_negative = (rhs.numer < 0) != negate_rhs;
        proof {
            let x = self@.0;
            let y = signed(rhs@.0, negate_rhs);
            assert(signed(lhs as int, lhs_negative) == x * rhs@.1) by (nonlinear_arith)
                requires
                    lm as int == abs(x),
                    lhs as int == lm * rhs@.1,
                    lhs_negative == (x < 0),
            ;
            assert(rm as int == abs(y));
            assert(rhs_negative == (y < 0) || y == 0);
            assert(signed(rhs_magnitude as int, rhs_negative) == y * self@.1) by (nonlinear_arith)
                requires
                    rm as int == abs(y),
                    rhs_magnitude as int == rm * self@.1,
                    rhs_negative == (y < 0) || y == 0,
            ;
        }
        let numer;
        let negative;
        if lhs_negative == rhs_negative {
            numer = lhs + rhs_magnitude;
            negative = lhs_negative;
        } else if lhs >= rhs_magnitude {
            numer = lhs - rhs_magnitude;
            negative = lhs_negative;
        } else {
            numer = rhs_magnitude - lhs;
            negative = rhs_negative;
        }
        assert((self.denom as u128) * (rhs.denom as u128) <= 0xffff_ffff_ffff_ffff * 0xffff_ffff_ffff_ffffu128) by (nonlinear_arith);
        let denom = (self.denom as u128) * (rhs.denom as u128);
        Self::from_magnitudes(numer, denom, negative)
    }
}

/// Moving the signs between numerator and denominator does not change the
/// lowest-terms form: `ratio(n1, d1) == ratio(n2, d2)` when `n1 * d2 == n2 * d1`
/// for nonzero denominators.
pub proof fn lemma_ratio_sign_move(n1: int, d1: int, n2: int, d2: int)
    requires
        d1 != 0,
        d2 != 0,
        n1 * d2 == n2 * d1,
    ensures
        ratio(n1, d1) == ratio(n2, d2),
{
    lemma_reduce(n1, d1);
    lemma_reduce(n2, d2);
    let r1 = reduce(n1, d1);
    let r2 = reduce(n2, d2);
    // r1 and r2 denote the same rational number.
    assert(r1.0 * r2.1 == r2.0 * r1.1) by (nonlinear_arith)
        requires
            r1.0 * d1 == n1 * r1.1,
            r2.0 * d2 == n2 * r2.1,
            n1 * d2 == n2 * d1,
            d1 != 0,
            d2 != 0,
            r1.1 > 0,
            r2.1 > 0,
    ;
    lemma_reduced_unique(r1.0, r1.1, r2.0, r2.1);
}

/// The fraction whose view is `p` (spec-level; `p` is expected in lowest terms).
pub closed spec fn fraction_of(p: (int, int)) -> Fraction {
    Fraction { numer: p.0 as i64, denom: p.1 as u64 }
}

/// A pair that `ratio` produced is the view of the fraction built from it.
pub proof fn lemma_fraction_of(n: int, d: int)
    requires
        ratio(n, d) is Some,
    ensures
        fraction_of(ratio(n, d).unwrap())@ == ratio(n, d).unwrap(),
{
    lemma_reduce(n, d);
}

/// The exact sum `a + b` as a fraction pair, when it fits.
pub open spec fn sum_of(a: (int, int), b: (int, int)) -> Option<(int, int)> {
    ratio(a.0 * b.1 + b.0 * a.1, a.1 * b.1)
}

impl core::ops::Add for Fraction {
    type Output = Self;

    fn add(self, rhs: Self) -> (r: Self) {
        match self.checked_add(rhs) {
            Some(f) => f,
            None => {
                proof {
                    assert(false);
                }
                self
            },
        }
    }
}

impl vstd::std_specs::ops::AddSpecImpl for Fraction {
    open spec fn obeys_add_spec() -> bool {
        true
    }

    open spec fn add_req(self, rhs: Self) -> bool {
        sum_of(self@, rhs@) is Some
    }

    open spec fn add_spec(self, rhs: Self) -> Self {
        fraction_of(sum_of(self@, rhs@).unwrap())
    }
}

impl core::ops::AddAssign for Fraction {
    fn add_assign(&mut self, rhs: Self)
        requires
            sum_of(old(self)@, rhs@) is Some,
        ensures
            Some(final(self)@) == sum_of(old(self)@, rhs@),
    {
        proof {
            lemma_fraction_of(old(self)@.0 * rhs@.1 + rhs@.0 * old(self)@.1, old(self)@.1 * rhs@.1);
        }
        *self = *self + rhs;
    }
}

/// The exact difference `a - b` as a fraction pair, when it fits.
pub open spec fn difference_of(a: (int, int), b: (int, int)) -> Option<(int, int)> {
    ratio(a.0 * b.1 - b.0 * a.1, a.1 * b.1)
}

/// The exact product `a * b` as a fraction pair, when it fits.
pub open spec fn product_of(a: (int, int), b: (int, int)) -> Option<(int, int)> {
    ratio(a.0 * b.0, a.1 * b.1)
}

/// The exact quotient `a / b` as a fraction pair, when `b` is nonzero and
/// the quotient fits.
pub open spec fn quotient_of(a: (int, int), b: (int, int)) -> Option<(int, int)> {
    if b.0 == 0 {
        None
    } else {
        ratio(a.0 * b.1, a.1 * b.0)
    }
}

/// Integer division rounding toward zero (for a positive divisor).
pub open spec fn trunc_div(n: int, d: int) -> int {
    if n >= 0 {
        n / d
    } else {
        -((-n) / d)
    }
}

/// The remainder `a % b`: `a - t * b` where `t` is the quotient `a / b`
/// truncated toward zero; `None` when a step does not fit or `b` is zero.
pub open spec fn remainder_of(a: (int, int), b: (int, int)) -> Option<(int, int)> {
    match quotient_of(a, b) {
        None => None,
        Some(q) => match product_of(b, (trunc_div(q.0, q.1), 1)) {
            None => None,
            Some(p) => difference_of(a, p),
        },
    }
}

impl core::ops::Sub for Fraction {
    type Output = Self;

    fn sub(self, rhs: Self) -> (r: Self) {
        match self.checked_sub(rhs) {
            Some(f) => f,
            None => {
                proof {
                    assert(false);
                }
                self
            },
        }
    }
}

impl vstd::std_specs::ops::SubSpecImpl for Fraction {
    open spec fn obeys_sub_spec() -> bool {
        true
    }

    open spec fn sub_req(self, rhs: Self) -> bool {
        difference_of(self@, rhs@) is Some
    }

    open spec fn sub_spec(self, rhs: Self) -> Self {
        fraction_of(difference_of(self@, rhs@).unwrap())
    }
}

impl core::ops::Mul for Fraction {
    type Output = Self;

    fn mul(self, rhs: Self) -> (r: Self) {
        match self.checked_mul(rhs) {
            Some(f) => f,
            None => {
                proof {
                    assert(false);
                }
                self
            },
        }
    }
}

impl vstd::std_specs::ops::MulSpecImpl for Fraction {
    open spec fn obeys_mul_spec() -> bool {
        true
    }

    open spec fn mul_req(self, rhs: Self) -> bool {
        product_of(self@, rhs@) is Some
    }

    open spec fn mul_spec(self, rhs: Self) -> Self {
        fraction_of(product_of(self@, rhs@).unwrap())
    }
}

impl core::ops::Div for Fraction {
    type Output = Self;

    fn div(self, rhs: Self) -> (r: Self) {
        match self.checked_div(rhs) {
            Some(f) => f,
            None => {
                proof {
                    assert(false);
                }
                self
            },
        }
    }
}

impl vstd::std_specs::ops::DivSpecImpl for Fraction {
    open spec fn obeys_div_spec() -> bool {
        true
    }

    open spec fn div_req(self, rhs: Self) -> bool {
        quotient_of(self@, rhs@) is Some
    }

    open spec fn div_spec(self, rhs: Self) -> Self {
        fraction_of(quotient_of(self@, rhs@).unwrap())
    }
}

impl Fraction {
    /// `numer / denom` rounded toward zero.
    fn truncated(&self) -> (t: i64)
        ensures
            t as int == trunc_div(self@.0, self@.1),
    {
        proof {
            use_type_invariant(self);
        }
        let m = magnitude(self.numer);
        let d = self.denom as u128;
        let q = m / d;
        proof {
            vstd::arithmetic::div_mod::lemma_div_is_ordered_by_denominator(m as int, 1, d as int);
        }
        if self.numer >= 0 {
            q as i64
        } else {
            (0i128 - q as i128) as i64
        }
    }
}

impl core::ops::Rem for Fraction {
    type Output = Self;

    fn rem(self, rhs: Self) -> (r: Self) {
        let div = self / rhs;
        proof {
            lemma_fraction_of(self@.0 * rhs@.1, self@.1 * rhs@.0);
        }
        let int_part = div.truncated();
        let whole = Fraction::from_integer(int_part);
        let step = rhs * whole;
        proof {
            lemma_fraction_of(rhs@.0 * whole@.0, rhs@.1 * whole@.1);
        }
        self - step
    }
}

impl vstd::std_specs::ops::RemSpecImpl for Fraction {
    open spec fn obeys_rem_spec() -> bool {
        true
    }

    open spec fn rem_req(self, rhs: Self) -> bool {
        remainder_of(self@, rhs@) is Some
    }

    open spec fn rem_spec(self, rhs: Self) -> Self {
        fraction_of(remainder_of(self@, rhs@).unwrap())
    }
}

impl core::ops::Neg for Fraction {
    type Output = Self;

    fn neg(self) -> (r: Self) {
        proof {
            use_type_invariant(self);
            assert(abs(-(self.numer as int)) == abs(self.numer as int));
        }
        Fraction { numer: 0 - self.numer, denom: self.denom }
    }
}

impl vstd::std_specs::ops::NegSpecImpl for Fraction {
    open spec fn obeys_neg_spec() -> bool {
        true
    }

    open spec fn neg_req(self) -> bool {
        self@.0 != i64::MIN
    }

    open spec fn neg_spec(self) -> Self {
        fraction_of((-self@.0, self@.1))
    }
}

impl core::ops::SubAssign for Fraction {
    fn sub_assign(&mut self, rhs: Self)
        requires
            difference_of(old(self)@, rhs@) is Some,
        ensures
            Some(final(self)@) == difference_of(old(self)@, rhs@),
    {
        proof {
            lemma_fraction_of(old(self)@.0 * rhs@.1 - rhs@.0 * old(self)@.1, old(self)@.1 * rhs@.1);
        }
        *self = *self - rhs;
    }
}

impl core::ops::MulAssign for Fraction {
    fn mul_assign(&mut self, rhs: Self)
        requires
            product_of(old(self)@, rhs@) is Some,
        ensures
            Some(final(self)@) == product_of(old(self)@, rhs@),
    {
        proof {
            lemma_fraction_of(old(self)@.0 * rhs@.0, old(self)@.1 * rhs@.1);
        }
        *self = *self * rhs;
    }
}

impl core::ops::DivAssign for Fraction {
    fn div_assign(&mut self, rhs: Self)
        requires
            quotient_of(old(self)@, rhs@) is Some,
        ensures
            Some(final(self)@) == quotient_of(old(self)@, rhs@),
    {
        proof {
            lemma_fraction_of(old(self)@.0 * rhs@.1, old(self)@.1 * rhs@.0);
        }
        *self = *self / rhs;
    }
}

impl core::ops::RemAssign for Fraction {
    fn rem_assign(&mut self, rhs: Self)
        requires
            remainder_of(old(self)@, rhs@) is Some,
        ensures
            Some(final(self)@) == remainder_of(old(self)@, rhs@),
    {
        proof {
            let a = old(self)@;
            let q = quotient_of(a, rhs@).unwrap();
            let p = product_of(rhs@, (trunc_div(q.0, q.1), 1)).unwrap();
            lemma_fraction_of(a.0 * p.1 - p.0 * a.1, a.1 * p.1);
        }
        *self = *self % rhs;
    }
}

impl Default for Fraction {
    fn default() -> (r: Self)
        ensures
            r@ == (0int, 1int),
    {
        Self::from_integer(0)
    }
}

impl From<i64> for Fraction {
    fn from(n: i64) -> (r: Self) {
        Self::from_integer(n)
    }
}

impl vstd::std_specs::convert::FromSpecImpl<i64> for Fraction {
    open spec fn obeys_from_spec() -> bool {
        true
    }

    open spec fn from_spec(n: i64) -> Self {
        fraction_of((n as int, 1))
    }
}

impl From<(i64, i64)> for Fraction {
    /// `Fraction::new(numer, denom)`; a zero denominator gives `0/1`, and so
    /// does a pair whose lowest terms do not fit.
    fn from(pair: (i64, i64)) -> (r: Self) {
        match Self::try_new(pair.0, pair.1) {
            Some(f) => f,
            None => Self::from_integer(0),
        }
    }
}

impl vstd::std_specs::convert::FromSpecImpl<(i64, i64)> for Fraction {
    open spec fn obeys_from_spec() -> bool {
        true
    }

    open spec fn from_spec(pair: (i64, i64)) -> Self {
        match ratio(pair.0 as int, pair.1 as int) {
            Some(p) => fraction_of(p),
            None => fraction_of((0, 1)),
        }
    }
}

impl From<i32> for Fraction {
    fn from(n: i32) -> (r: Self) {
        Self::from_integer(n as i64)
    }
}

impl vstd::std_specs::convert::FromSpecImpl<i32> for Fraction {
    open spec fn obeys_from_spec() -> bool {
        true
    }

    open spec fn from_spec(n: i32) -> Self {
        fraction_of((n as int, 1))
    }
}

/// The text of a fraction: `"n"` for an integer, `"n/d"` otherwise.
pub open spec fn fraction_text(p: (int, int)) -> Seq<char> {
    if p.1 == 1 {
        signed_decimal(p.0)
    } else {
        signed_decimal(p.0) + seq!['/'] + decimal(p.1 as nat)
    }
}

/// Law: the text of a fraction reads back as the fraction. With
/// denominator 1 it is the numerator's signed numeral; otherwise it holds a
/// `/` before which stands the numerator's signed numeral and after which
/// stands a run of digits spelling the whole denominator.
pub proof fn law_text_reads_back(f: Fraction)
    requires
        f.wf(),
    ensures
        f@.1 == 1 ==> signed_digits_value(fraction_text(f@)) == f@.0 && !fraction_text(f@).contains(
            '/',
        ),
        f@.1 != 1 ==> exists|k: int|
            0 <= k < fraction_text(f@).len() && #[trigger] fraction_text(f@)[k] == '/'
                && signed_digits_value(fraction_text(f@).take(k)) == f@.0 && all_digit_chars(
                fraction_text(f@).skip(k + 1),
            ) && fraction_text(f@).skip(k + 1).len() > 0 && digits_value(
                fraction_text(f@).skip(k + 1),
            ) == f@.1,
{
    let t = fraction_text(f@);
    let a = signed_decimal(f@.0);
    law_signed_decimal_reads_back(f@.0);
    if f@.1 == 1 {
        if t.contains('/') {
            let j = choose|j: int| 0 <= j < t.len() && t[j] == '/';
            if f@.0 < 0 {
                if j > 0 {
                    assert(a.drop_first()[j - 1] == a[j]);
                }
            }
        }
    } else {
        let b = decimal(f@.1 as nat);
        law_decimal_reads_back(f@.1 as nat);
        let k = a.len() as int;
        assert(t[k] == '/');
        assert(t.take(k) =~= a);
        assert(t.skip(k + 1) =~= b);
    }
}

impl Fraction {
    /// Formats the fraction: `"n"` when the denominator is 1, else `"n/d"`.
    pub fn to_string(&self) -> (s: String)
        ensures
            s@ == fraction_text(self@),
    {
        let mut s = String::new();
        push_signed_decimal(&mut s, self.numer);
        if self.denom != 1 {
            push_char(&mut s, '/');
            push_decimal(&mut s, self.denom as u128);
        }
        assert(s@ =~= fraction_text(self@));
        s
    }

    /// The cross products `self.numer * other.denom` and
    /// `other.numer * self.denom`, whose order is the order of the fractions.
    fn cross_products(&self, other: &Self) -> (r: (i128, i128))
        ensures
            r.0 as int == self@.0 * other@.1,
            r.1 as int == other@.0 * self@.1,
    {
        assert(-0x8000_0000_0000_0000 * 0xffff_ffff_ffff_ffff <= (self.numer as int) * (other.denom as int) <= 0x7fff_ffff_ffff_ffff * 0xffff_ffff_ffff_ffff) by (nonlinear_arith)
            requires
                -0x8000_0000_0000_0000 <= self.numer <= 0x7fff_ffff_ffff_ffff,
                0 <= other.denom <= 0xffff_ffff_ffff_ffff,
        ;
        assert(-0x8000_0000_0000_0000 * 0xffff_ffff_ffff_ffff <= (other.numer as int) * (self.denom as int) <= 0x7fff_ffff_ffff_ffff * 0xffff_ffff_ffff_ffff) by (nonlinear_arith)
            requires
                -0x8000_0000_0000_0000 <= other.numer <= 0x7fff_ffff_ffff_ffff,
                0 <= self.denom <= 0xffff_ffff_ffff_ffff,
        ;
        (self.numer as i128 * other.denom as i128, other.numer as i128 * self.denom as i128)
    }
}

/// The order of two fractions as rational numbers, by cross multiplication.
pub open spec fn compare_fractions(a: (int, int), b: (int, int)) -> Option<core::cmp::Ordering> {
    if a.0 * b.1 < b.0 * a.1 {
        Some(core::cmp::Ordering::Less)
    } else if a.0 * b.1 == b.0 * a.1 {
        Some(core::cmp::Ordering::Equal)
    } else {
        Some(core::cmp::Ordering::Greater)
    }
}

impl PartialOrd for Fraction {
    fn partial_cmp(&self, other: &Self) -> (r: Option<core::cmp::Ordering>) {
        let (l, r) = self.cross_products(other);
        if l < r {
            Some(core::cmp::Ordering::Less)
        } else if l == r {
            Some(core::cmp::Ordering::Equal)
        } else {
            Some(core::cmp::Ordering::Greater)
        }
    }
}

impl vstd::std_specs::cmp::PartialOrdSpecImpl for Fraction {
    open spec fn obeys_partial_cmp_spec() -> bool {
        true
    }

    open spec fn partial_cmp_spec(&self, other: &Self) -> Option<core::cmp::Ordering> {
        compare_fractions(self@, other@)
    }
}

/// A pair in lowest terms that fits is its own lowest-terms form.
proof fn lemma_ratio_of_reduced(n: int, d: int)
    requires
        lowest_terms(n, d),
        fits_i64(n),
        d <= u64::MAX,
    ensures
        ratio(n, d) == Some((n, d)),
{
    lemma_reduce(n, d);
    let r = reduce(n, d);
    lemma_reduced_unique(r.0, r.1, n, d);
}

/// Any fraction pair denoting the same rational number as `n / d` is the
/// result of `ratio(n, d)`.
proof fn lemma_ratio_of_equal_value(n: int, d: int, a: (int, int))
    requires
        d != 0,
        lowest_terms(a.0, a.1),
        fits_i64(a.0),
        a.1 <= u64::MAX,
        n * a.1 == a.0 * d,
    ensures
        ratio(n, d) == Some(a),
{
    lemma_ratio_of_reduced(a.0, a.1);
    lemma_ratio_sign_move(n, d, a.0, a.1);
}

/// Law: fractions are kept in lowest terms, so two fractions are equal
/// exactly when they denote the same rational number (`a/b == c/d` iff
/// `a*d == c*b`).
pub proof fn law_equality_is_value_equality(a: Fraction, b: Fraction)
    requires
        a.wf(),
        b.wf(),
    ensures
        (a == b) <==> (a@.0 * b@.1 == b@.0 * a@.1),
{
    if a@.0 * b@.1 == b@.0 * a@.1 {
        lemma_reduced_unique(a@.0, a@.1, b@.0, b@.1);
    }
}

/// Law: every result of `ratio` (hence of every constructor and every
/// checked operation) is in lowest terms, its denominator is positive, and
/// it denotes exactly the rational number `n / d`. Zero is always `0/1`.
pub proof fn law_ratio_is_exact(n: int, d: int)
    requires
        ratio(n, d) is Some,
    ensures
        lowest_terms(ratio(n, d).unwrap().0, ratio(n, d).unwrap().1),
        ratio(n, d).unwrap().0 * d == n * ratio(n, d).unwrap().1,
        n == 0 ==> ratio(n, d) == Some((0int, 1int)),
{
    lemma_reduce(n, d);
}

/// Law: a zero numerator in lowest terms has denominator 1.
pub proof fn law_zero_is_zero_over_one(d: int)
    requires
        lowest_terms(0, d),
    ensures
        d == 1,
{
    lemma_gcd_zero_one(d as nat, 0);
}

/// Law: addition is commutative.
pub proof fn law_add_commutative(a: (int, int), b: (int, int))
    ensures
        sum_of(a, b) == sum_of(b, a),
{
    assert(a.0 * b.1 + b.0 * a.1 == b.0 * a.1 + a.0 * b.1);
    assert(a.1 * b.1 == b.1 * a.1) by (nonlinear_arith);
}

/// Law: multiplication is commutative.
pub proof fn law_mul_commutative(a: (int, int), b: (int, int))
    ensures
        product_of(a, b) == product_of(b, a),
{
    assert(a.0 * b.0 == b.0 * a.0) by (nonlinear_arith);
    assert(a.1 * b.1 == b.1 * a.1) by (nonlinear_arith);
}

/// Law: subtraction undoes addition: when `a + b` is `c`, `c - b` is `a`.
pub proof fn law_sub_undoes_add(a: Fraction, b: Fraction)
    requires
        a.wf(),
        b.wf(),
        sum_of(a@, b@) is Some,
    ensures
        difference_of(sum_of(a@, b@).unwrap(), b@) == Some(a@),
{
    let c = sum_of(a@, b@).unwrap();
    let n = a@.0 * b@.1 + b@.0 * a@.1;
    let d = a@.1 * b@.1;
    assert(d > 0) by (nonlinear_arith)
        requires
            d == a@.1 * b@.1,
            a@.1 > 0,
            b@.1 > 0,
    ;
    lemma_reduce(n, d);
    assert(c.0 * d == n * c.1);
    // c - b = (c.0 * b.1 - b.0 * c.1) / (c.1 * b.1), which equals a.
    let m = c.0 * b@.1 - b@.0 * c.1;
    let e = c.1 * b@.1;
    assert(e != 0) by (nonlinear_arith)
        requires
            e == c.1 * b@.1,
            c.1 > 0,
            b@.1 > 0,
    ;
    assert(m * a@.1 == a@.0 * e) by (nonlinear_arith)
        requires
            c.0 * d == n * c.1,
            n == a@.0 * b@.1 + b@.0 * a@.1,
            d == a@.1 * b@.1,
            m == c.0 * b@.1 - b@.0 * c.1,
            e == c.1 * b@.1,
            b@.1 > 0,
    ;
    lemma_ratio_of_equal_value(m, e, a@);
}

/// Law: division undoes multiplication by a nonzero fraction: when `a * b`
/// is `c` and `b != 0`, `c / b` is `a`.
pub proof fn law_div_undoes_mul(a: Fraction, b: Fraction)
    requires
        a.wf(),
        b.wf(),
        b@.0 != 0,
        product_of(a@, b@) is Some,
    ensures
        quotient_of(product_of(a@, b@).unwrap(), b@) == Some(a@),
{
    let c = product_of(a@, b@).unwrap();
    let n = a@.0 * b@.0;
    let d = a@.1 * b@.1;
    assert(d > 0) by (nonlinear_arith)
        requires
            d == a@.1 * b@.1,
            a@.1 > 0,
            b@.1 > 0,
    ;
    lemma_reduce(n, d);
    let m = c.0 * b@.1;
    let e = c.1 * b@.0;
    assert(e != 0) by (nonlinear_arith)
        requires
            e == c.1 * b@.0,
            c.1 > 0,
            b@.0 != 0,
    ;
    assert(m * a@.1 == a@.0 * e) by (nonlinear_arith)
        requires
            c.0 * d == n * c.1,
            n == a@.0 * b@.0,
            d == a@.1 * b@.1,
            m == c.0 * b@.1,
            e == c.1 * b@.0,
            b@.0 != 0,
    ;
    lemma_ratio_of_equal_value(m, e, a@);
}

/// Law: multiplying a quotient by its divisor gives the dividend back: when
/// `a / b` is `q` (so `b` is nonzero), `q * b` is `a`.
pub proof fn law_mul_undoes_div(a: Fraction, b: Fraction)
    requires
        a.wf(),
        b.wf(),
        quotient_of(a@, b@) is Some,
    ensures
        b@.0 != 0,
        product_of(quotient_of(a@, b@).unwrap(), b@) == Some(a@),
{
    let q = quotient_of(a@, b@).unwrap();
    let n = a@.0 * b@.1;
    let d = a@.1 * b@.0;
    assert(d != 0) by (nonlinear_arith)
        requires
            d == a@.1 * b@.0,
            a@.1 > 0,
            b@.0 != 0,
    ;
    lemma_reduce(n, d);
    let m = q.0 * b@.0;
    let e = q.1 * b@.1;
    assert(e != 0) by (nonlinear_arith)
        requires
            e == q.1 * b@.1,
            q.1 > 0,
            b@.1 > 0,
    ;
    assert(m * a@.1 == a@.0 * e) by (nonlinear_arith)
        requires
            q.0 * d == n * q.1,
            n == a@.0 * b@.1,
            d == a@.1 * b@.0,
            m == q.0 * b@.0,
            e == q.1 * b@.1,
    ;
    lemma_ratio_of_equal_value(m, e, a@);
}

/// Law: adding fractions is commutative, and adding zero (`0/1`) gives the
/// fraction itself.
pub proof fn law_add_commutes_and_zero_is_neutral(a: Fraction, b: Fraction)
    requires
        a.wf(),
        b.wf(),
    ensures
        sum_of(a@, b@) == sum_of(b@, a@),
        sum_of(a@, (0int, 1int)) == Some(a@),
{
    law_add_commutative(a@, b@);
    assert(a@.0 * 1 + 0 * a@.1 == a@.0);
    assert(a@.1 * 1 == a@.1);
    lemma_ratio_of_reduced(a@.0, a@.1);
}

/// Law: adding back what was subtracted gives the first operand back: when `a - b` is
/// `c`, `c + b` is `a`.
pub proof fn law_add_undoes_sub(a: Fraction, b: Fraction)
    requires
        a.wf(),
        b.wf(),
        difference_of(a@, b@) is Some,
    ensures
        sum_of(difference_of(a@, b@).unwrap(), b@) == Some(a@),
{
    let c = difference_of(a@, b@).unwrap();
    let n = a@.0 * b@.1 - b@.0 * a@.1;
    let d = a@.1 * b@.1;
    assert(d > 0) by (nonlinear_arith)
        requires
            d == a@.1 * b@.1,
            a@.1 > 0,
            b@.1 > 0,
    ;
    lemma_reduce(n, d);
    let m = c.0 * b@.1 + b@.0 * c.1;
    let e = c.1 * b@.1;
    assert(e != 0) by (nonlinear_arith)
        requires
            e == c.1 * b@.1,
            c.1 > 0,
            b@.1 > 0,
    ;
    assert(m * a@.1 == a@.0 * e) by (nonlinear_arith)
        requires
            c.0 * d == n * c.1,
            n == a@.0 * b@.1 - b@.0 * a@.1,
            d == a@.1 * b@.1,
            m == c.0 * b@.1 + b@.0 * c.1,
            e == c.1 * b@.1,
            b@.1 > 0,
    ;
    lemma_ratio_of_equal_value(m, e, a@);
}

/// Law: a fraction minus itself is zero (`0/1`).
pub proof fn law_sub_self_is_zero(a: Fraction)
    requires
        a.wf(),
    ensures
        difference_of(a@, a@) == Some((0int, 1int)),
{
    let d = a@.1 * a@.1;
    assert(d > 0) by (nonlinear_arith)
        requires
            d == a@.1 * a@.1,
            a@.1 > 0,
    ;
    assert(a@.0 * a@.1 - a@.0 * a@.1 == 0);
    lemma_reduce(0, d);
}

/// An odd divisor of a power of two is 1.
proof fn lemma_odd_divisor_of_pow2(g: int, k: nat)
    requires
        divides(g, pow2(k) as int),
        g % 2 == 1,
    ensures
        g == 1,
    decreases k,
{
    lemma2_to64();
    if k == 0 {
        lemma_divides_le(g, 1);
    } else {
        lemma_pow2_unfold(k);
        let x = pow2((k - 1) as nat) as int;
        lemma_divides_witness(2 * x, g);
        let q = (2 * x) / g;
        let a = g / 2;
        let b = q / 2;
        let r = q % 2;
        assert(g == 2 * a + 1);
        assert(q == 2 * b + r && 0 <= r < 2);
        assert(r == 2 * (x - 2 * a * b - a * r - b)) by (nonlinear_arith)
            requires
                2 * x == g * q,
                g == 2 * a + 1,
                q == 2 * b + r,
        ;
        assert(r == 0);
        assert(x == g * b) by (nonlinear_arith)
            requires
                2 * x == g * q,
                q == 2 * b,
        ;
        lemma_divides_by_witness(x, g, b);
        lemma_odd_divisor_of_pow2(g, (k - 1) as nat);
    }
}

/// Law: `try_new(n, d)` fails exactly when the denominator is zero, or when
/// the numerator is `i64::MIN` and the denominator is negative and odd (the
/// lowest-terms numerator is then `2^63`, which no `i64` holds).
pub proof fn law_try_new_fails_exactly(n: i64, d: i64)
    ensures
        (ratio(n as int, d as int) is None) <==> (d == 0 || (n == i64::MIN && d < 0 && d % 2 != 0)),
{
    if d != 0 {
        let ni = n as int;
        let di = d as int;
        lemma_reduce(ni, di);
        let r = reduce(ni, di);
        let an = abs(ni) as nat;
        let ad = abs(di) as nat;
        lemma_gcd_divides(an, ad);
        let g = gcd(an, ad) as int;
        lemma_divides_witness(an as int, g);
        lemma_divides_witness(ad as int, g);
        lemma2_to64();
        assert(r.1 <= u64::MAX);
        if n == i64::MIN && d < 0 && d % 2 != 0 {
            lemma2_to64_rest();
            assert(abs(ni) == 0x8000_0000_0000_0000);
            assert(an == pow2(63));
            assert(ad % 2 == 1);
            if g % 2 == 0 {
                let h = g / 2;
                let k = ad as int / g;
                assert(ad as int == 2 * (h * k)) by (nonlinear_arith)
                    requires
                        ad as int == g * k,
                        g == 2 * h,
                ;
                assert(false);
            }
            lemma_odd_divisor_of_pow2(g, 63);
            assert(r.0 == 0x8000_0000_0000_0000);
        } else if r.0 > i64::MAX {
            assert(an == 0x8000_0000_0000_0000);
            assert(ni == i64::MIN);
            assert(g == 1) by (nonlinear_arith)
                requires
                    an as int == g * (an as int / g),
                    an as int / g == r.0,
                    r.0 == an,
                    an > 0,
            ;
            assert(d < 0);
            assert(ad % 2 == 0);
            lemma_divides_by_witness(an as int, 2, 0x4000_0000_0000_0000);
            lemma_divides_by_witness(ad as int, 2, ad as int / 2);
            lemma_common_divisor_divides_gcd(an, ad, 2);
            assert(false);
        }
    }
}

/// Law: subtracting is adding the negation: `a - b == a + (-b)`.
pub proof fn law_sub_is_add_neg(a: (int, int), b: (int, int))
    ensures
        difference_of(a, b) == sum_of(a, (-b.0, b.1)),
{
    assert((-b.0) * a.1 == -(b.0 * a.1)) by (nonlinear_arith);
}

/// Law: the order of fractions agrees with their equality: `a` compares
/// equal to `b` exactly when `a == b`.
pub proof fn law_order_equal_iff_equal(a: Fraction, b: Fraction)
    requires
        a.wf(),
        b.wf(),
    ensures
        (compare_fractions(a@, b@) == Some(core::cmp::Ordering::Equal)) <==> (a == b),
{
    law_equality_is_value_equality(a, b);
    assert(b@.0 * a@.1 == a@.1 * b@.0) by (nonlinear_arith);
}

/// Law: the order of fractions is antisymmetric: `a < b` exactly when
/// `b > a`.
pub proof fn law_order_antisymmetric(a: (int, int), b: (int, int))
    ensures
        (compare_fractions(a, b) == Some(core::cmp::Ordering::Less)) <==> (compare_fractions(b, a)
            == Some(core::cmp::Ordering::Greater)),
        (compare_fractions(a, b) == Some(core::cmp::Ordering::Equal)) <==> (compare_fractions(b, a)
            == Some(core::cmp::Ordering::Equal)),
{
}

/// Law: the order of fractions (positive denominators) is transitive.
pub proof fn law_order_transitive(a: (int, int), b: (int, int), c: (int, int))
    requires
        a.1 > 0,
        b.1 > 0,
        c.1 > 0,
        compare_fractions(a, b) == Some(core::cmp::Ordering::Less),
        compare_fractions(b, c) == Some(core::cmp::Ordering::Less),
    ensures
        compare_fractions(a, c) == Some(core::cmp::Ordering::Less),
{
    assert(a.0 * c.1 < c.0 * a.1) by (nonlinear_arith)
        requires
            a.1 > 0,
            b.1 > 0,
            c.1 > 0,
            a.0 * b.1 < b.0 * a.1,
            b.0 * c.1 < c.0 * b.1,
    {
        assert(a.0 * b.1 * c.1 < b.0 * a.1 * c.1);
        assert(b.0 * c.1 * a.1 < c.0 * b.1 * a.1);
        assert(a.0 * c.1 * b.1 < c.0 * a.1 * b.1);
    }
}

/// Law: the order of fractions agrees with the order of rational numbers:
/// `a < b` exactly when `b - a` is positive (whenever that difference fits).
pub proof fn law_order_is_value_order(a: Fraction, b: Fraction)
    requires
        a.wf(),
        b.wf(),
        difference_of(b@, a@) is Some,
    ensures
        (compare_fractions(a@, b@) == Some(core::cmp::Ordering::Less)) <==> (difference_of(
            b@,
            a@,
        ).unwrap().0 > 0),
{
    let n = b@.0 * a@.1 - a@.0 * b@.1;
    let d = b@.1 * a@.1;
    assert(d > 0) by (nonlinear_arith)
        requires
            d == b@.1 * a@.1,
            a@.1 > 0,
            b@.1 > 0,
    ;
    lemma_reduce(n, d);
    law_ratio_is_exact(n, d);
    let r = ratio(n, d).unwrap();
    assert(r.1 > 0);
    assert((r.0 > 0) <==> (n > 0)) by (nonlinear_arith)
        requires
            r.0 * d == n * r.1,
            d > 0,
            r.1 > 0,
    ;
}

} // verus!
