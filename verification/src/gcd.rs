//! Greatest common divisors: the Euclidean algorithm on `u64` and `u128`,
//! and the number theory that reduced fractions rest on.
use vstd::prelude::*;
use vstd::arithmetic::div_mod::*;
use vstd::arithmetic::mul::*;

verus! {

/// The greatest common divisor, defined by Euclid's recurrence.
/// `gcd(a, 0) == a`, so `gcd(0, 0) == 0` and `gcd(0, b) == b`.
pub open spec fn gcd(a: nat, b: nat) -> nat
    decreases b,
{
    if b == 0 {
        a
    } else {
        gcd(b, a % b)
    }
}

/// `d` divides `x` (for a positive `d`).
pub open spec fn divides(d: int, x: int) -> bool {
    d > 0 && x % d == 0
}

proof fn lemma_multiple_mod(k: int, d: int)
    requires
        d > 0,
    ensures
        (k * d) % d == 0,
{
    lemma_mod_multiples_basic(k, d);
}

/// From `x == d * q` conclude that `d` divides `x`.
pub proof fn lemma_divides_by_witness(x: int, d: int, q: int)
    requires
        d > 0,
        x == d * q,
    ensures
        divides(d, x),
{
    lemma_mul_is_commutative(d, q);
    lemma_multiple_mod(q, d);
}

/// A divisor of `x` gives a witness `x == d * (x / d)`.
pub proof fn lemma_divides_witness(x: int, d: int)
    requires
        divides(d, x),
    ensures
        x == d * (x / d),
{
    lemma_fundamental_div_mod(x, d);
}

/// The gcd of two numbers, not both zero, is positive and divides both.
pub proof fn lemma_gcd_divides(a: nat, b: nat)
    requires
        a > 0 || b > 0,
    ensures
        gcd(a, b) > 0,
        divides(gcd(a, b) as int, a as int),
        divides(gcd(a, b) as int, b as int),
    decreases b,
{
    if b == 0 {
        lemma_mod_self_0(a as int);
        lemma_small_mod(0nat, a);
    } else {
        let r = a % b;
        lemma_mod_pos_bound(a as int, b as int);
        lemma_gcd_divides(b, r);
        let g = gcd(b, r) as int;
        assert(gcd(a, b) == g);
        lemma_divides_witness(b as int, g);
        lemma_divides_witness(r as int, g);
        lemma_fundamental_div_mod(a as int, b as int);
        let q = a as int / b as int;
        let wb = b as int / g;
        let wr = r as int / g;
        assert(a as int == b as int * q + r as int);
        assert(a as int == g * (wb * q + wr)) by (nonlinear_arith)
            requires
                a as int == b as int * q + r as int,
                b as int == g * wb,
                r as int == g * wr,
        ;
        lemma_divides_by_witness(a as int, g, wb * q + wr);
    }
}

/// Every common divisor of `a` and `b` divides `gcd(a, b)`.
pub proof fn lemma_common_divisor_divides_gcd(a: nat, b: nat, d: int)
    requires
        divides(d, a as int),
        divides(d, b as int),
    ensures
        divides(d, gcd(a, b) as int),
    decreases b,
{
    if b != 0 {
        let r = a % b;
        lemma_mod_pos_bound(a as int, b as int);
        lemma_fundamental_div_mod(a as int, b as int);
        let q = a as int / b as int;
        lemma_divides_witness(a as int, d);
        lemma_divides_witness(b as int, d);
        let wa = a as int / d;
        let wb = b as int / d;
        assert(r as int == d * (wa - wb * q)) by (nonlinear_arith)
            requires
                a as int == b as int * q + r as int,
                a as int == d * wa,
                b as int == d * wb,
        ;
        lemma_divides_by_witness(r as int, d, wa - wb * q);
        lemma_common_divisor_divides_gcd(b, r, d);
    }
}

/// A positive multiple of a positive number is at least that number.
pub proof fn lemma_divides_le(d: int, x: int)
    requires
        divides(d, x),
        x > 0,
    ensures
        d <= x,
{
    lemma_divides_witness(x, d);
    let q = x / d;
    assert(q >= 1) by (nonlinear_arith)
        requires
            x == d * q,
            x > 0,
            d > 0,
    ;
    assert(d <= x) by (nonlinear_arith)
        requires
            x == d * q,
            q >= 1,
            d > 0,
    ;
}

/// Dividing both numbers by their gcd leaves numbers whose gcd is 1.
pub proof fn lemma_gcd_reduced(a: nat, b: nat)
    requires
        b > 0,
    ensures
        gcd(a, b) > 0,
        gcd(a / gcd(a, b), b / gcd(a, b)) == 1,
{
    lemma_gcd_divides(a, b);
    let g = gcd(a, b) as int;
    let ra = a / gcd(a, b);
    let rb = b / gcd(a, b);
    lemma_divides_witness(a as int, g);
    lemma_divides_witness(b as int, g);
    assert(rb > 0) by (nonlinear_arith)
        requires
            b as int == g * rb,
            b > 0,
            g > 0,
            rb >= 0,
    ;
    lemma_gcd_divides(ra, rb);
    let h = gcd(ra, rb) as int;
    lemma_divides_witness(ra as int, h);
    lemma_divides_witness(rb as int, h);
    let wa = ra as int / h;
    let wb = rb as int / h;
    assert(g * h > 0) by (nonlinear_arith)
        requires
            g > 0,
            h > 0,
    ;
    assert(a as int == (g * h) * wa) by (nonlinear_arith)
        requires
            a as int == g * ra,
            ra as int == h * wa,
    ;
    assert(b as int == (g * h) * wb) by (nonlinear_arith)
        requires
            b as int == g * rb,
            rb as int == h * wb,
    ;
    lemma_divides_by_witness(a as int, g * h, wa);
    lemma_divides_by_witness(b as int, g * h, wb);
    lemma_common_divisor_divides_gcd(a, b, g * h);
    lemma_divides_le(g * h, g);
    assert(h <= 1) by (nonlinear_arith)
        requires
            g * h <= g,
            g > 0,
    ;
}

/// `gcd(k * a, k * b) == k * gcd(a, b)`.
pub proof fn lemma_gcd_scale(k: nat, a: nat, b: nat)
    ensures
        gcd(k * a, k * b) == k * gcd(a, b),
    decreases b,
{
    if k == 0 {
        assert(k * a == 0 && k * b == 0) by (nonlinear_arith)
            requires
                k == 0,
        ;
        assert(gcd(0, 0) == 0);
        assert(k * gcd(a, b) == 0) by (nonlinear_arith)
            requires
                k == 0,
        ;
    } else if b == 0 {
        assert(k * b == 0) by (nonlinear_arith)
            requires
                b == 0,
        ;
    } else {
        let r = a % b;
        lemma_mod_pos_bound(a as int, b as int);
        lemma_fundamental_div_mod(a as int, b as int);
        let q = a as int / b as int;
        assert(k * b > 0) by (nonlinear_arith)
            requires
                k > 0,
                b > 0,
        ;
        assert((k * a) as int == (k * b) as int * q + (k * r) as int) by (nonlinear_arith)
            requires
                a as int == b as int * q + r as int,
        ;
        assert(0 <= ((k * r) as int) && ((k * r) as int) < ((k * b) as int)) by (nonlinear_arith)
            requires
                0 <= r < b,
                k > 0,
        ;
        lemma_fundamental_div_mod_converse(
            (k * a) as int,
            (k * b) as int,
            q,
            (k * r) as int,
        );
        assert((k * a) % (k * b) == k * r);
        lemma_gcd_scale(k, b, r);
    }
}

/// Euclid's lemma: if `b` divides `a * c` and `gcd(a, b) == 1`, then `b` divides `c`.
pub proof fn lemma_coprime_divides(a: nat, b: nat, c: nat)
    requires
        b > 0,
        gcd(a, b) == 1,
        divides(b as int, (a * c) as int),
    ensures
        divides(b as int, c as int),
{
    lemma_gcd_scale(c, a, b);
    assert(c * 1 == c) by (nonlinear_arith);
    assert(c * a == a * c) by (nonlinear_arith);
    lemma_multiple_mod(c as int, b as int);
    assert(b * c == c * b) by (nonlinear_arith);
    assert(divides(b as int, (c * b) as int)) by {
        lemma_divides_by_witness((c * b) as int, b as int, c as int);
    }
    lemma_common_divisor_divides_gcd(c * a, c * b, b as int);
}

/// Two fractions in lowest terms with positive denominators that denote the
/// same rational number are the same pair.
pub proof fn lemma_reduced_unique(n1: int, d1: int, n2: int, d2: int)
    requires
        d1 > 0,
        d2 > 0,
        gcd(abs(n1) as nat, d1 as nat) == 1,
        gcd(abs(n2) as nat, d2 as nat) == 1,
        n1 * d2 == n2 * d1,
    ensures
        n1 == n2,
        d1 == d2,
{
    let a1 = abs(n1);
    let a2 = abs(n2);
    assert(a1 * d2 == a2 * d1) by (nonlinear_arith)
        requires
            n1 * d2 == n2 * d1,
            d1 > 0,
            d2 > 0,
            a1 == abs(n1),
            a2 == abs(n2),
    ;
    // d1 divides a1 * d2, hence d2.
    lemma_mul_is_commutative(d1, a2);
    lemma_mul_is_commutative(d2, a1);
    lemma_divides_by_witness(a1 * d2, d1, a2);
    lemma_coprime_divides(a1 as nat, d1 as nat, d2 as nat);
    lemma_divides_by_witness(a2 * d1, d2, a1);
    lemma_coprime_divides(a2 as nat, d2 as nat, d1 as nat);
    lemma_divides_le(d1, d2);
    lemma_divides_le(d2, d1);
    assert(n1 == n2) by (nonlinear_arith)
        requires
            n1 * d2 == n2 * d1,
            d1 == d2,
            d1 > 0,
    ;
}

/// The absolute value of an integer.
pub open spec fn abs(x: int) -> int {
    if x < 0 {
        -x
    } else {
        x
    }
}

/// Euclid's algorithm on `u64`. Like the `u128` version it returns 1 for
/// `gcd(0, 0)`, so that its result can always divide.
pub fn gcd_u64(a: u64, b: u64) -> (g: u64)
    ensures
        g == (if a == 0 && b == 0 { 1 } else { gcd(a as nat, b as nat) }),
{
    let mut x = a;
    let mut y = b;
    while y != 0
        invariant
            gcd(x as nat, y as nat) == gcd(a as nat, b as nat),
            (x == 0 && y == 0) ==> (a == 0 && b == 0),
            (a == 0 && b == 0) ==> (x == 0 && y == 0),
        decreases y,
    {
        let t = y;
        y = x % y;
        x = t;
    }
    if x == 0 {
        1
    } else {
        x
    }
}

/// Euclid's algorithm on `u128`; returns 1 for `gcd(0, 0)`.
pub fn gcd_u128(a: u128, b: u128) -> (g: u128)
    ensures
        g == (if a == 0 && b == 0 { 1 } else { gcd(a as nat, b as nat) }),
{
    let mut x = a;
    let mut y = b;
    while y != 0
        invariant
            gcd(x as nat, y as nat) == gcd(a as nat, b as nat),
            (x == 0 && y == 0) ==> (a == 0 && b == 0),
            (a == 0 && b == 0) ==> (x == 0 && y == 0),
        decreases y,
    {
        let t = y;
        y = x % y;
        x = t;
    }
    if x == 0 {
        1
    } else {
        x
    }
}

} // verus!
