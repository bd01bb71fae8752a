//! Greatest common divisors and lowest terms, over mathematical integers.

use vstd::arithmetic::div_mod::*;
use vstd::arithmetic::mul::*;
use vstd::prelude::*;

verus! {

/// Euclid's greatest common divisor.
pub open spec fn gcd(a: nat, b: nat) -> nat
    decreases b,
{
    if b == 0 {
        a
    } else {
        gcd(b, a % b)
    }
}

/// Absolute value as a natural number.
pub open spec fn magnitude(x: int) -> nat {
    if x < 0 {
        (-x) as nat
    } else {
        x as nat
    }
}

/// `n / d` in lowest terms with a positive denominator, for `d != 0`.
pub open spec fn lowest_terms(n: int, d: int) -> (int, int) {
    let g = gcd(magnitude(n), magnitude(d)) as int;
    if d < 0 {
        (-(n / g), (-d) / g)
    } else {
        (n / g, d / g)
    }
}

/// The real number that the fraction `n / d` denotes.
pub open spec fn ratio(n: int, d: int) -> real {
    (n as real) / (d as real)
}

/// The greatest common divisor is positive and divides both arguments.
pub proof fn lemma_gcd_divides(a: nat, b: nat)
    requires
        a > 0 || b > 0,
    ensures
        gcd(a, b) > 0,
        a % gcd(a, b) == 0,
        b % gcd(a, b) == 0,
    decreases b,
{
    if b == 0 {
        lemma_mod_self_0(a as int);
    } else {
        lemma_gcd_divides(b, a % b);
        let g = gcd(a, b) as int;
        let r = (a % b) as int;
        let q = (a / b) as int;
        lemma_fundamental_div_mod(a as int, b as int);
        lemma_fundamental_div_mod(b as int, g);
        lemma_fundamental_div_mod(r, g);
        let k = (b as int) / g;
        let m = r / g;
        assert(a == (k * q + m) * g) by (nonlinear_arith)
            requires
                a == (b as int) * q + r,
                b == g * k,
                r == g * m,
        ;
        lemma_mod_multiples_basic(k * q + m, g);
    }
}

/// Bezout coefficients.
pub proof fn lemma_bezout(a: nat, b: nat) -> (p: (int, int))
    ensures
        a * p.0 + b * p.1 == gcd(a, b),
    decreases b,
{
    if b == 0 {
        (1, 0)
    } else {
        let (x, y) = lemma_bezout(b, a % b);
        lemma_fundamental_div_mod(a as int, b as int);
        let q = (a / b) as int;
        let r = (a % b) as int;
        assert(a * y + b * (x - q * y) == b * x + r * y) by (nonlinear_arith)
            requires
                a == (b as int) * q + r,
        ;
        (y, x - q * y)
    }
}

/// A divisor of `a * d` that is coprime to `a` divides `d`.
pub proof fn lemma_euclid(a: nat, b: nat, d: int)
    requires
        b > 0,
        gcd(a, b) == 1,
        (a * d) % (b as int) == 0,
    ensures
        d % (b as int) == 0,
{
    let (x, y) = lemma_bezout(a, b);
    lemma_fundamental_div_mod(a * d, b as int);
    let k = (a * d) / (b as int);
    assert(d == (k * x + y * d) * b) by (nonlinear_arith)
        requires
            a * x + b * y == 1,
            a * d == b * k,
    ;
    lemma_mod_multiples_basic(k * x + y * d, b as int);
}

/// Dividing both arguments by their greatest common divisor leaves coprime numbers.
pub proof fn lemma_gcd_reduced(a: nat, b: nat)
    requires
        b > 0,
    ensures
        gcd(a, b) > 0,
        b / gcd(a, b) > 0,
        gcd(a / gcd(a, b), b / gcd(a, b)) == 1,
        a == gcd(a, b) * (a / gcd(a, b)),
        b == gcd(a, b) * (b / gcd(a, b)),
{
    lemma_gcd_divides(a, b);
    let g = gcd(a, b);
    lemma_fundamental_div_mod(a as int, g as int);
    lemma_fundamental_div_mod(b as int, g as int);
    let p = a / g;
    let q = b / g;
    assert(q > 0) by (nonlinear_arith)
        requires
            b == g * q,
            b > 0,
    ;
    let (x, y) = lemma_bezout(a, b);
    assert(p * x + q * y == 1) by (nonlinear_arith)
        requires
            a * x + b * y == g,
            a == g * p,
            b == g * q,
            g > 0,
    ;
    lemma_gcd_divides(p, q);
    let h = gcd(p, q);
    lemma_fundamental_div_mod(p as int, h as int);
    lemma_fundamental_div_mod(q as int, h as int);
    let s = p / h;
    let t = q / h;
    assert(h == 1) by (nonlinear_arith)
        requires
            p == h * s,
            q == h * t,
            p * x + q * y == 1,
            h > 0,
    {
        assert(h * (s * x + t * y) == 1);
    }
}

/// A fraction in lowest terms is determined by the value it denotes.
pub proof fn lemma_lowest_terms_unique(a: int, b: int, c: int, d: int)
    requires
        b > 0,
        d > 0,
        gcd(magnitude(a), b as nat) == 1,
        gcd(magnitude(c), d as nat) == 1,
        a * d == c * b,
    ensures
        a == c,
        b == d,
{
    let ma = magnitude(a);
    let mc = magnitude(c);
    assert(ma * d == mc * b) by (nonlinear_arith)
        requires
            a * d == c * b,
            b > 0,
            d > 0,
            ma == magnitude(a),
            mc == magnitude(c),
    ;
    lemma_mod_multiples_basic(mc as int, b);
    lemma_euclid(ma, b as nat, d);
    assert((mc * b) % d == 0) by {
        lemma_mod_multiples_basic(ma as int, d);
    }
    lemma_euclid(mc, d as nat, b);
    lemma_fundamental_div_mod(d, b);
    lemma_fundamental_div_mod(b, d);
    let u = d / b;
    let w = b / d;
    assert(b == d) by (nonlinear_arith)
        requires
            d == b * u,
            b == d * w,
            b > 0,
            d > 0,
    {
        assert(u > 0 && w > 0);
        assert(d >= b && b >= d);
    }
    assert(a == c) by (nonlinear_arith)
        requires
            a * d == c * b,
            b == d,
            b > 0,
    ;
}

/// Reducing a fraction keeps its value.
pub proof fn lemma_lowest_terms_value(n: int, d: int)
    requires
        d != 0,
    ensures
        lowest_terms(n, d).1 > 0,
        gcd(magnitude(lowest_terms(n, d).0), lowest_terms(n, d).1 as nat) == 1,
        lowest_terms(n, d).0 * d == n * lowest_terms(n, d).1,
        magnitude(lowest_terms(n, d).0) <= magnitude(n),
        lowest_terms(n, d).1 <= magnitude(d),
        ratio(lowest_terms(n, d).0, lowest_terms(n, d).1) == ratio(n, d),
{
    let mn = magnitude(n);
    let md = magnitude(d);
    let g = gcd(mn, md);
    lemma_gcd_reduced(mn, md);
    let p = mn / g;
    let q = md / g;
    let (a, b) = lowest_terms(n, d);
    if n < 0 {
        lemma_mod_multiples_basic(-(p as int), g as int);
        assert(n == (-(p as int)) * g) by (nonlinear_arith)
            requires
                mn == g * p,
                n == -mn,
        ;
        lemma_div_multiples_vanish(-(p as int), g as int);
        assert(n / (g as int) == -(p as int)) by {
            lemma_mul_is_commutative(-(p as int), g as int);
        }
    }
    assert(b == q);
    assert(magnitude(a) == p);
    let gp = (g * p) as int;
    let gq = (g * q) as int;
    assert(gp * q == gq * p) by (nonlinear_arith)
        requires
            gp == g * p,
            gq == g * q,
    ;
    let ip = p as int;
    let iq = q as int;
    if (n < 0) == (d < 0) {
        assert(a * d == n * b) by (nonlinear_arith)
            requires
                a == ip,
                b == iq,
                gp * iq == gq * ip,
                (n == gp && d == gq) || (n == -gp && d == -gq),
        ;
    } else {
        assert(a * d == n * b) by (nonlinear_arith)
            requires
                a == -ip,
                b == iq,
                gp * iq == gq * ip,
                (n == -gp && d == gq) || (n == gp && d == -gq),
        ;
    }
    assert(p <= mn) by (nonlinear_arith)
        requires
            mn == g * p,
            g > 0,
    ;
    assert(q <= md) by (nonlinear_arith)
        requires
            md == g * q,
            g > 0,
    ;
    lemma_ratio_equal(a, b, n, d);
}

/// A quotient times its divisor is the dividend.
pub proof fn lemma_ratio_cancel(n: int, d: int)
    requires
        d != 0,
    ensures
        ratio(n, d) * (d as real) == n as real,
{
    let x = n as real;
    let y = d as real;
    assert((x / y) * y == x) by (nonlinear_arith)
        requires
            y != 0 as real,
    ;
}

/// The only number whose product with `d` is `n` is their ratio.
pub proof fn lemma_ratio_unique(n: int, d: int, x: real)
    requires
        d != 0,
        x * (d as real) == n as real,
    ensures
        x == ratio(n, d),
{
    lemma_ratio_cancel(n, d);
    let y = d as real;
    let z = ratio(n, d);
    assert(x == z) by (nonlinear_arith)
        requires
            x * y == z * y,
            y != 0 as real,
    ;
}

/// Casting to a real distributes over products.
pub proof fn lemma_cast_product(a: int, b: int)
    ensures
        (a * b) as real == (a as real) * (b as real),
{
    assert((a * b) as real == (a as real) * (b as real)) by (nonlinear_arith);
}

/// A nonzero factor cancels.
pub proof fn lemma_cancel(x: real, y: real, k: real)
    requires
        x * k == y * k,
        k != 0 as real,
    ensures
        x == y,
{
    assert(x == y) by (nonlinear_arith)
        requires
            x * k == y * k,
            k != 0 as real,
    ;
}

/// Two fractions are equal exactly when their cross products are.
pub proof fn lemma_ratio_equal(a: int, b: int, c: int, d: int)
    requires
        b != 0,
        d != 0,
    ensures
        ratio(a, b) == ratio(c, d) <==> a * d == c * b,
{
    lemma_ratio_cancel(a, b);
    lemma_ratio_cancel(c, d);
    let x = ratio(a, b);
    let y = ratio(c, d);
    let rb = b as real;
    let rd = d as real;
    lemma_cast_product(a, d);
    lemma_cast_product(c, b);
    assert(x * rb * rd == (a * d) as real);
    assert((c * b) as real == y * rd * rb);
    if a * d == c * b {
        assert(x == y) by (nonlinear_arith)
            requires
                x * rb * rd == y * rd * rb,
                rb != 0 as real,
                rd != 0 as real,
        ;
    }
    if x == y {
        assert(x * rb * rd == y * rd * rb) by (nonlinear_arith)
            requires
                x == y,
        ;
    }
}

/// Fractions with positive denominators compare as their cross products do.
pub proof fn lemma_ratio_less(a: int, b: int, c: int, d: int)
    requires
        b > 0,
        d > 0,
    ensures
        ratio(a, b) < ratio(c, d) <==> a * d < c * b,
{
    lemma_ratio_cancel(a, b);
    lemma_ratio_cancel(c, d);
    let x = ratio(a, b);
    let y = ratio(c, d);
    let rb = b as real;
    let rd = d as real;
    lemma_cast_product(a, d);
    lemma_cast_product(c, b);
    assert(x * rb * rd == (a * d) as real);
    assert((c * b) as real == y * rd * rb);
    if a * d < c * b {
        assert(x < y) by (nonlinear_arith)
            requires
                x * rb * rd < y * rd * rb,
                rb > 0 as real,
                rd > 0 as real,
        ;
    }
    if x < y {
        assert(x * rb * rd < y * rd * rb) by (nonlinear_arith)
            requires
                x < y,
                rb > 0 as real,
                rd > 0 as real,
        ;
    }
}

} // verus!
