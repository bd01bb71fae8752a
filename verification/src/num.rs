//! Exact rational arithmetic for the theory solver.
//!
//! A verdict is *derived*, not guessed, so the arithmetic underneath it must not
//! drift. Binary floating point would: `0.1 + 0.2 <= 0.3` is false there. Every
//! coefficient is therefore a reduced `i128/i128` fraction and every operation is
//! checked.
//!
//! Overflow is not a panic and not a wraparound: it is [`None`]. A number that cannot
//! be represented must never look like a proof.

use std::cmp::Ordering;

use vstd::prelude::*;

use crate::arith;
use crate::text;
use crate::text::{integer, natural, padded_digits, unsigned, Rank};

verus! {

/// An exact rational. Invariant: `den > 0` and `arith::gcd(|num|, den) == 1`.
#[derive(Clone, Copy, Debug, PartialEq, Eq, Structural, Hash)]
pub struct Rat {
    num: i128,
    den: i128,
}

/// Can the integer be held in an `i128`?
pub open spec fn fits(x: int) -> bool {
    i128::MIN <= x <= i128::MAX
}

/// The greatest common divisor of two magnitudes.
fn common_divisor(a: u128, b: u128) -> (g: u128)
    ensures
        g as nat == arith::gcd(a as nat, b as nat),
{
    let mut x = a;
    let mut y = b;
    while y != 0
        invariant
            arith::gcd(x as nat, y as nat) == arith::gcd(a as nat, b as nat),
        decreases y,
    {
        let t: u128 = x % y;
        x = y;
        y = t;
    }
    x
}

/// Ten to the power `k`.
pub open spec fn pow10(k: nat) -> nat
    decreases k,
{
    if k == 0 {
        1
    } else {
        10 * pow10((k - 1) as nat)
    }
}

/// The number of decimal places that writes a fraction with denominator `d` exactly:
/// the least `k >= from` such that `d` divides `10^k`, if one is at most nine.
pub open spec fn places_from(d: int, from: nat) -> Option<nat>
    decreases 10 - from,
{
    if from > 9 {
        None
    } else if (pow10(from) as int) % d == 0 {
        Some(from)
    } else {
        places_from(d, from + 1)
    }
}

/// The number of decimal places that writes a fraction with denominator `d` exactly,
/// if nine are enough.
pub open spec fn places(d: int) -> Option<nat> {
    places_from(d, 0)
}

/// How the fraction `n / d` is written: a whole number, an exact short decimal, or
/// `n/d`.
pub open spec fn display(n: int, d: int) -> Seq<char> {
    if d == 1 {
        text::decimal(n)
    } else {
        match places(d) {
            Some(k) if fits(n * pow10(k)) => {
                let v = arith::magnitude(n) * pow10(k) / (d as nat);
                let sign = if n < 0 {
                    "-"@
                } else {
                    ""@
                };
                sign + text::digits(v / pow10(k)) + "."@ + text::padded(v % pow10(k), k)
            },
            _ => text::decimal(n) + "/"@ + text::decimal(d),
        }
    }
}

impl Rat {
    /// The numerator.
    pub closed spec fn n(self) -> int {
        self.num as int
    }

    /// The denominator.
    pub closed spec fn d(self) -> int {
        self.den as int
    }

    /// The number that the fraction denotes.
    pub open spec fn val(self) -> real {
        arith::ratio(self.n(), self.d())
    }

    /// Lowest terms with a positive denominator.
    #[verifier::type_invariant]
    pub closed spec fn wf(self) -> bool {
        self.den > 0 && arith::gcd(arith::magnitude(self.num as int), self.den as nat) == 1
    }

    /// What the invariant says.
    pub proof fn lemma_wf(self)
        requires
            self.wf(),
        ensures
            0 < self.d() <= i128::MAX,
            fits(self.n()),
            arith::gcd(arith::magnitude(self.n()), self.d() as nat) == 1,
            self.val() * (self.d() as real) == self.n() as real,
            self.val() == 0 as real <==> self.n() == 0,
            self.val() > 0 as real <==> self.n() > 0,
            self.val() < 0 as real <==> self.n() < 0,
    {
        arith::lemma_ratio_cancel(self.n(), self.d());
        arith::lemma_ratio_less(0, 1, self.n(), self.d());
        arith::lemma_ratio_less(self.n(), self.d(), 0, 1);
        arith::lemma_ratio_cancel(0, 1);
    }

    /// Numerator and denominator determine a rational.
    pub proof fn lemma_ext(self, other: Rat)
        requires
            self.n() == other.n(),
            self.d() == other.d(),
        ensures
            self == other,
    {
    }

    /// The representation is canonical: rationals of equal value are equal.
    pub proof fn lemma_canonical(self, other: Rat)
        requires
            self.wf(),
            other.wf(),
            self.val() == other.val(),
        ensures
            self == other,
    {
        arith::lemma_ratio_equal(self.n(), self.d(), other.n(), other.d());
        arith::lemma_lowest_terms_unique(self.n(), self.d(), other.n(), other.d());
    }

    /// Build a reduced rational. A zero denominator yields `None`, as does a
    /// numerator/denominator pair that cannot be normalized in `i128`.
    pub fn new(num: i128, den: i128) -> (ret: Option<Rat>)
        ensures
            ret is Some <==> den != 0 && {
                let (a, b) = arith::lowest_terms(num as int, den as int);
                fits(a) && fits(b)
            },
            ret matches Some(r) ==> r == Rat::of(num as int, den as int) && r.wf() && (r.n(), r.d())
                == arith::lowest_terms(num as int, den as int) && r.val() == arith::ratio(
                num as int,
                den as int,
            ),
    {
        if den == 0 {
            return None;
        }
        let mn: u128 = unsigned(num);
        let md: u128 = unsigned(den);
        let g: u128 = common_divisor(mn, md);
        proof {
            arith::lemma_lowest_terms_value(num as int, den as int);
            arith::lemma_gcd_reduced(mn as nat, md as nat);
            lemma_quotient_sign(num as int, g as int);
        }
        let p: u128 = mn / g;
        let q: u128 = md / g;
        let negative = (num < 0) != (den < 0);
        let limit: u128 = 0x8000_0000_0000_0000_0000_0000_0000_0000;
        if q >= limit {
            return None;
        }
        if negative {
            if p > limit {
                return None;
            }
            if p == limit {
                Some(Rat { num: i128::MIN, den: q as i128 })
            } else {
                Some(Rat { num: -(p as i128), den: q as i128 })
            }
        } else {
            if p >= limit {
                return None;
            }
            Some(Rat { num: p as i128, den: q as i128 })
        }
    }

    /// Zero.
    pub fn zero() -> (r: Rat)
        ensures
            r == Rat::of(0, 1),
            r.n() == 0,
            r.d() == 1,
            r.val() == 0 as real,
    {
        Rat::whole(0)
    }

    /// One.
    pub fn one() -> (r: Rat)
        ensures
            r == Rat::of(1, 1),
            r.n() == 1,
            r.d() == 1,
            r.val() == 1 as real,
    {
        Rat::whole(1)
    }

    /// A whole number.
    pub fn whole(v: i64) -> (r: Rat)
        ensures
            r == Rat::of(v as int, 1),
            r.n() == v,
            r.d() == 1,
            r.val() == (v as int) as real,
    {
        proof {
            lemma_gcd_one(arith::magnitude(v as int));
            Rat::lemma_whole(v as int);
        }
        let r = Rat { num: v as i128, den: 1 };
        proof {
            r.lemma_ext(Rat::of(v as int, 1));
        }
        r
    }

    /// An integer as a rational.
    pub fn integral(v: i128) -> (r: Rat)
        ensures
            r == Rat::of(v as int, 1),
            r.wf(),
    {
        proof {
            lemma_gcd_one(arith::magnitude(v as int));
            Rat::lemma_whole(v as int);
        }
        let r = Rat { num: v, den: 1 };
        proof {
            r.lemma_ext(Rat::of(v as int, 1));
        }
        r
    }

    /// What a whole number is.
    pub proof fn lemma_whole(k: int)
        requires
            fits(k),
        ensures
            Rat::of(k, 1).wf(),
            Rat::of(k, 1).n() == k,
            Rat::of(k, 1).d() == 1,
            Rat::of(k, 1).val() == k as real,
    {
        Rat::lemma_of(k, 1);
        lemma_gcd_one(arith::magnitude(k));
        arith::lemma_lowest_terms_value(k, 1);
        arith::lemma_lowest_terms_unique(Rat::of(k, 1).n(), Rat::of(k, 1).d(), k, 1);
        arith::lemma_ratio_unique(k, 1, k as real);
    }

    pub fn numer(self) -> (r: i128)
        ensures
            r == self.n(),
    {
        self.num
    }

    pub fn denom(self) -> (r: i128)
        ensures
            r == self.d(),
            r > 0,
    {
        proof {
            use_type_invariant(self);
        }
        self.den
    }

    pub fn is_zero(self) -> (b: bool)
        ensures
            b == (self.val() == 0 as real),
    {
        proof {
            use_type_invariant(self);
            self.lemma_wf();
        }
        self.num == 0
    }

    pub fn is_negative(self) -> (b: bool)
        ensures
            b == (self.val() < 0 as real),
    {
        proof {
            use_type_invariant(self);
            self.lemma_wf();
        }
        self.num < 0
    }

    pub fn is_positive(self) -> (b: bool)
        ensures
            b == (self.val() > 0 as real),
    {
        proof {
            use_type_invariant(self);
            self.lemma_wf();
        }
        self.num > 0
    }

    pub fn is_integer(self) -> (b: bool)
        ensures
            b == (self.d() == 1),
            b <==> is_whole(self.val()),
    {
        proof {
            use_type_invariant(self);
            self.lemma_wf();
            self.lemma_integer();
        }
        self.den == 1
    }

    /// A rational is a whole number exactly when its denominator is one.
    pub proof fn lemma_integer(self)
        requires
            self.wf(),
        ensures
            self.d() == 1 <==> is_whole(self.val()),
    {
        self.lemma_wf();
        if self.d() == 1 {
            arith::lemma_ratio_unique(self.n(), 1, self.n() as real);
            assert(self.val() == embed(self.n()));
        }
        if is_whole(self.val()) {
            let k = choose|k: int| self.val() == #[trigger] embed(k);
            arith::lemma_ratio_unique(k, 1, k as real);
            arith::lemma_ratio_equal(self.n(), self.d(), k, 1);
            lemma_gcd_one(arith::magnitude(k));
            arith::lemma_lowest_terms_unique(self.n(), self.d(), k, 1);
        }
    }

    /// The rational `n / d`, where it can be represented.
    pub closed spec fn of(n: int, d: int) -> Rat {
        let (a, b) = arith::lowest_terms(n, d);
        Rat { num: a as i128, den: b as i128 }
    }

    /// A fraction of representable parts with a positive denominator is representable.
    pub proof fn lemma_of(n: int, d: int)
        requires
            d > 0,
            fits(n),
            fits(d),
        ensures
            Rat::of(n, d).wf(),
            Rat::of(n, d).val() == arith::ratio(n, d),
            (Rat::of(n, d).n(), Rat::of(n, d).d()) == arith::lowest_terms(n, d),
            fits(arith::lowest_terms(n, d).0),
            fits(arith::lowest_terms(n, d).1),
    {
        arith::lemma_lowest_terms_value(n, d);
        arith::lemma_gcd_reduced(arith::magnitude(n), arith::magnitude(d));
        lemma_quotient_sign(n, arith::gcd(arith::magnitude(n), arith::magnitude(d)) as int);
    }

    /// A fraction whose lowest terms can be represented.
    pub proof fn lemma_of_reduced(n: int, d: int)
        requires
            d != 0,
            fits(arith::lowest_terms(n, d).0),
            fits(arith::lowest_terms(n, d).1),
        ensures
            Rat::of(n, d).wf(),
            Rat::of(n, d).val() == arith::ratio(n, d),
    {
        arith::lemma_lowest_terms_value(n, d);
        arith::lemma_gcd_reduced(arith::magnitude(n), arith::magnitude(d));
    }

    /// The sum, unless a step of computing it overflows.
    pub open spec fn plus(self, other: Rat) -> Option<Rat> {
        let x = self.n() * other.d();
        let y = other.n() * self.d();
        let z = self.d() * other.d();
        if fits(x) && fits(y) && fits(x + y) && fits(z) {
            Some(Rat::of(x + y, z))
        } else {
            None
        }
    }

    /// The opposite, unless it overflows.
    pub open spec fn negated(self) -> Option<Rat> {
        if fits(-self.n()) {
            Some(Rat::of(-self.n(), self.d()))
        } else {
            None
        }
    }

    /// The difference, unless a step of computing it overflows.
    pub open spec fn minus(self, other: Rat) -> Option<Rat> {
        match other.negated() {
            Some(o) => self.plus(o),
            None => None,
        }
    }

    /// The product, unless a step of computing it overflows.
    pub open spec fn times(self, other: Rat) -> Option<Rat> {
        let x = self.n() * other.n();
        let z = self.d() * other.d();
        if fits(x) && fits(z) {
            Some(Rat::of(x, z))
        } else {
            None
        }
    }

    /// The quotient, unless the divisor is zero or a step of computing it overflows.
    pub open spec fn over(self, other: Rat) -> Option<Rat> {
        let x = self.n() * other.d();
        let z = self.d() * other.n();
        let (a, b) = arith::lowest_terms(x, z);
        if other.n() != 0 && fits(x) && fits(z) && fits(a) && fits(b) {
            Some(Rat::of(x, z))
        } else {
            None
        }
    }

    /// The exact sum.
    pub fn add(self, other: Rat) -> (ret: Option<Rat>)
        ensures
            ret == self.plus(other),
            ret matches Some(r) ==> r.wf() && r.val() == self.val() + other.val(),
    {
        proof {
            use_type_invariant(self);
            use_type_invariant(other);
            self.lemma_plus(other);
        }
        let x = self.num.checked_mul(other.den)?;
        let y = other.num.checked_mul(self.den)?;
        let s = x.checked_add(y)?;
        let z = self.den.checked_mul(other.den)?;
        let ret = Rat::new(s, z);
        proof {
            if let Some(r) = ret {
                r.lemma_ext(Rat::of(s as int, z as int));
            }
        }
        ret
    }

    /// Sums are exact.
    pub proof fn lemma_plus(self, other: Rat)
        requires
            self.wf(),
            other.wf(),
        ensures
            self.d() * other.d() > 0,
            self.plus(other) matches Some(r) ==> r.wf() && r.val() == self.val() + other.val() && (
            r.n(), r.d()) == arith::lowest_terms(
                self.n() * other.d() + other.n() * self.d(),
                self.d() * other.d(),
            ) && fits(r.n()) && fits(r.d()),
    {
        self.lemma_wf();
        other.lemma_wf();
        let (a, b, c, d) = (self.n(), self.d(), other.n(), other.d());
        assert(b * d > 0) by (nonlinear_arith)
            requires
                b > 0,
                d > 0,
        ;
        if self.plus(other) is Some {
            Rat::lemma_of(a * d + c * b, b * d);
            let (x, y) = (self.val(), other.val());
            let (rb, rd) = (b as real, d as real);
            arith::lemma_cast_product(a, d);
            arith::lemma_cast_product(c, b);
            arith::lemma_cast_product(b, d);
            assert((x + y) * (rb * rd) == (x * rb) * rd + (y * rd) * rb) by (nonlinear_arith);
            arith::lemma_ratio_unique(a * d + c * b, b * d, x + y);
        }
    }

    /// The exact difference.
    pub fn sub(self, other: Rat) -> (ret: Option<Rat>)
        ensures
            ret == self.minus(other),
            ret matches Some(r) ==> r.wf() && r.val() == self.val() - other.val(),
    {
        let o = other.neg()?;
        self.add(o)
    }

    /// The exact opposite.
    pub fn neg(self) -> (ret: Option<Rat>)
        ensures
            ret == self.negated(),
            ret matches Some(r) ==> r.wf() && r.n() == -self.n() && r.d() == self.d() && r.val()
                == -self.val(),
    {
        proof {
            use_type_invariant(self);
            self.lemma_negated();
        }
        if self.num == i128::MIN {
            return None;
        }
        let ret = Rat { num: -self.num, den: self.den };
        proof {
            ret.lemma_ext(Rat::of(-self.n(), self.d()));
        }
        Some(ret)
    }

    /// Opposites are exact.
    pub proof fn lemma_negated(self)
        requires
            self.wf(),
        ensures
            self.negated() matches Some(r) ==> r.wf() && r.n() == -self.n() && r.d() == self.d()
                && r.val() == -self.val(),
    {
        self.lemma_wf();
        if self.negated() is Some {
            let (a, b) = (self.n(), self.d());
            Rat::lemma_of(-a, b);
            let r = Rat::of(-a, b);
            r.lemma_wf();
            assert(arith::magnitude(-a) == arith::magnitude(a));
            arith::lemma_lowest_terms_value(-a, b);
            arith::lemma_lowest_terms_unique(r.n(), r.d(), -a, b);
            let x = self.val();
            let rb = b as real;
            assert((-x) * rb == -(x * rb)) by (nonlinear_arith);
            arith::lemma_ratio_unique(-a, b, -x);
        }
    }

    /// The exact product.
    pub fn mul(self, other: Rat) -> (ret: Option<Rat>)
        ensures
            ret == self.times(other),
            ret matches Some(r) ==> r.wf() && r.val() == self.val() * other.val(),
    {
        proof {
            use_type_invariant(self);
            use_type_invariant(other);
            self.lemma_times(other);
        }
        let x = self.num.checked_mul(other.num)?;
        let z = self.den.checked_mul(other.den)?;
        let ret = Rat::new(x, z);
        proof {
            if let Some(r) = ret {
                r.lemma_ext(Rat::of(x as int, z as int));
            }
        }
        ret
    }

    /// Products are exact.
    pub proof fn lemma_times(self, other: Rat)
        requires
            self.wf(),
            other.wf(),
        ensures
            self.d() * other.d() > 0,
            self.times(other) matches Some(r) ==> r.wf() && r.val() == self.val() * other.val() && (
            r.n(), r.d()) == arith::lowest_terms(
                self.n() * other.n(),
                self.d() * other.d(),
            ) && fits(r.n()) && fits(r.d()),
    {
        self.lemma_wf();
        other.lemma_wf();
        let (a, b, c, d) = (self.n(), self.d(), other.n(), other.d());
        assert(b * d > 0) by (nonlinear_arith)
            requires
                b > 0,
                d > 0,
        ;
        if self.times(other) is Some {
            Rat::lemma_of(a * c, b * d);
            let (x, y) = (self.val(), other.val());
            let (rb, rd) = (b as real, d as real);
            arith::lemma_cast_product(a, c);
            arith::lemma_cast_product(b, d);
            assert((x * y) * (rb * rd) == (x * rb) * (y * rd)) by (nonlinear_arith);
            arith::lemma_ratio_unique(a * c, b * d, x * y);
        }
    }

    /// The exact quotient.
    pub fn div(self, other: Rat) -> (ret: Option<Rat>)
        ensures
            ret == self.over(other),
            ret matches Some(r) ==> r.wf() && other.val() != 0 as real && r.val() * other.val()
                == self.val(),
    {
        proof {
            use_type_invariant(self);
            use_type_invariant(other);
            self.lemma_wf();
            other.lemma_wf();
        }
        if other.is_zero() {
            return None;
        }
        let x = self.num.checked_mul(other.den)?;
        let z = self.den.checked_mul(other.num)?;
        proof {
            let (b, c) = (self.d(), other.n());
            assert(b * c != 0) by (nonlinear_arith)
                requires
                    b > 0,
                    c != 0,
            ;
        }
        let ret = Rat::new(x, z);
        proof {
            if let Some(r) = ret {
                r.lemma_ext(Rat::of(x as int, z as int));
                self.lemma_over(other);
            }
        }
        ret
    }

    /// Quotients are exact.
    pub proof fn lemma_over(self, other: Rat)
        requires
            self.wf(),
            other.wf(),
        ensures
            self.over(other) matches Some(r) ==> r.wf() && other.val() != 0 as real && r.val()
                * other.val() == self.val(),
    {
        self.lemma_wf();
        other.lemma_wf();
        if let Some(r) = self.over(other) {
            let (a, b, c, d) = (self.n(), self.d(), other.n(), other.d());
            assert(b * c != 0) by (nonlinear_arith)
                requires
                    b > 0,
                    c != 0,
            ;
            Rat::lemma_of_reduced(a * d, b * c);
            arith::lemma_cast_product(a, d);
            arith::lemma_cast_product(b, c);
            arith::lemma_ratio_cancel(a * d, b * c);
            let (p, u, w) = (r.val(), self.val(), other.val());
            let (ra, rb, rc, rd) = (a as real, b as real, c as real, d as real);
            assert((p * w) * (rb * rd) == p * (rb * (w * rd))) by (nonlinear_arith);
            assert((u * rb) * rd == u * (rb * rd)) by (nonlinear_arith);
            assert(rb * rd != 0 as real) by (nonlinear_arith)
                requires
                    rb > 0 as real,
                    rd > 0 as real,
            ;
            arith::lemma_cancel(p * w, u, rb * rd);
        }
    }

    /// Largest integer `<= self`.
    pub fn floor(self) -> (ret: Option<i128>)
        ensures
            ret matches Some(q) && q == self.n() / self.d() && is_floor(q as int, self.val()),
    {
        proof {
            use_type_invariant(self);
            self.lemma_wf();
            self.lemma_floor();
        }
        if self.num >= 0 {
            Some(self.num / self.den)
        } else {
            let m: i128 = -(self.num + 1);
            let q: i128 = m / self.den;
            proof {
                lemma_floor_negative(self.n(), self.d());
            }
            Some(-q - 1)
        }
    }

    /// A rational is between the ends of the range of its numerator.
    pub proof fn lemma_range(self)
        requires
            self.wf(),
        ensures
            (i128::MIN as int) as real <= self.val() <= (i128::MAX as int) as real,
    {
        self.lemma_wf();
        let (a, b) = (self.n(), self.d());
        let (lo, hi) = (i128::MIN as int, i128::MAX as int);
        assert(lo * b <= a <= hi * b) by (nonlinear_arith)
            requires
                lo <= a <= hi,
                lo <= 0 <= hi,
                1 <= b,
        ;
        arith::lemma_ratio_less(a, b, lo, 1);
        arith::lemma_ratio_less(hi, 1, a, b);
        arith::lemma_ratio_unique(lo, 1, lo as real);
        arith::lemma_ratio_unique(hi, 1, hi as real);
    }

    /// The Euclidean quotient is the floor.
    pub proof fn lemma_floor(self)
        requires
            self.wf(),
        ensures
            is_floor(self.n() / self.d(), self.val()),
    {
        self.lemma_wf();
        let (a, b) = (self.n(), self.d());
        let q = a / b;
        vstd::arithmetic::div_mod::lemma_fundamental_div_mod(a, b);
        vstd::arithmetic::div_mod::lemma_mod_bound(a, b);
        assert(q * b <= a < (q + 1) * b) by (nonlinear_arith)
            requires
                a == b * q + a % b,
                0 <= a % b < b,
        ;
        arith::lemma_ratio_less(a, b, q, 1);
        arith::lemma_ratio_less(a, b, q + 1, 1);
        arith::lemma_ratio_unique(q, 1, q as real);
        arith::lemma_ratio_unique(q + 1, 1, (q + 1) as real);
    }

    /// Smallest integer `>= self`.
    pub fn ceil(self) -> (ret: Option<i128>)
        ensures
            ret matches Some(q) && q == -((-self.n()) / self.d()) && is_ceiling(
                q as int,
                self.val(),
            ),
    {
        proof {
            use_type_invariant(self);
            self.lemma_wf();
            self.lemma_ceil();
        }
        if self.num <= 0 {
            // The magnitude of a non-positive number, rounded down.
            let m: u128 = unsigned(self.num);
            let q: u128 = m / (self.den as u128);
            proof {
                let (m, d) = (m as int, self.d());
                assert(m / d <= m) by (nonlinear_arith)
                    requires
                        m >= 0,
                        d > 0,
                ;
            }
            if q == 0x8000_0000_0000_0000_0000_0000_0000_0000 {
                Some(i128::MIN)
            } else {
                Some(-(q as i128))
            }
        } else {
            let q: i128 = (self.num - 1) / self.den;
            proof {
                lemma_floor_negative(-self.n(), self.d());
                let (m, d) = (self.n() - 1, self.d());
                assert(m / d <= m) by (nonlinear_arith)
                    requires
                        m >= 0,
                        d > 0,
                ;
            }
            Some(q + 1)
        }
    }

    /// Rounding the opposite down rounds the number up.
    pub proof fn lemma_ceil(self)
        requires
            self.wf(),
        ensures
            is_ceiling(-((-self.n()) / self.d()), self.val()),
    {
        self.lemma_wf();
        let (a, b) = (-self.n(), self.d());
        let q = a / b;
        vstd::arithmetic::div_mod::lemma_fundamental_div_mod(a, b);
        vstd::arithmetic::div_mod::lemma_mod_bound(a, b);
        assert(q * b <= a < (q + 1) * b) by (nonlinear_arith)
            requires
                a == b * q + a % b,
                0 <= a % b < b,
        ;
        assert((-q) * b == -(q * b) && (-q - 1) * b == -((q + 1) * b)) by (nonlinear_arith);
        arith::lemma_ratio_less(-q, 1, self.n(), b);
        arith::lemma_ratio_less(-q - 1, 1, self.n(), b);
        arith::lemma_ratio_unique(-q, 1, (-q) as real);
        arith::lemma_ratio_unique(-q - 1, 1, (-q - 1) as real);
    }

    /// Halfway between two rationals, unless a step of computing it overflows.
    pub open spec fn halfway(self, other: Rat) -> Option<Rat> {
        match self.plus(other) {
            Some(s) => s.over(Rat::of(2, 1)),
            None => None,
        }
    }

    /// Midpoint of two rationals, used to pick a witness value strictly between a
    /// lower and an upper bound.
    pub fn midpoint(self, other: Rat) -> (ret: Option<Rat>)
        ensures
            ret == self.halfway(other),
            ret matches Some(r) ==> r.wf() && r.val() + r.val() == self.val() + other.val(),
    {
        let s = self.add(other)?;
        let two = Rat::whole(2);
        s.div(two)
    }

    /// How two rationals compare, unless a cross product overflows.
    pub open spec fn ranked(self, other: Rat) -> Option<Rank> {
        if !fits(self.n() * other.d()) || !fits(other.n() * self.d()) {
            None
        } else if self.val() < other.val() {
            Some(Rank::Less)
        } else if self.val() == other.val() {
            Some(Rank::Same)
        } else {
            Some(Rank::More)
        }
    }

    /// Compare two rationals; `None` when a cross product overflows.
    pub fn rank(self, other: Rat) -> (ret: Option<Rank>)
        ensures
            ret == self.ranked(other),
            ret is Some <==> fits(self.n() * other.d()) && fits(other.n() * self.d()),
            ret matches Some(r) ==> {
                &&& (r is Less <==> self.val() < other.val())
                &&& (r is Same <==> self.val() == other.val())
                &&& (r is More <==> self.val() > other.val())
            },
    {
        proof {
            use_type_invariant(self);
            use_type_invariant(other);
            self.lemma_wf();
            other.lemma_wf();
            arith::lemma_ratio_less(self.n(), self.d(), other.n(), other.d());
            arith::lemma_ratio_less(other.n(), other.d(), self.n(), self.d());
            arith::lemma_ratio_equal(self.n(), self.d(), other.n(), other.d());
        }
        let lhs = self.num.checked_mul(other.den)?;
        let rhs = other.num.checked_mul(self.den)?;
        if lhs < rhs {
            Some(Rank::Less)
        } else if lhs == rhs {
            Some(Rank::Same)
        } else {
            Some(Rank::More)
        }
    }
}

impl Rat {
    /// A short decimal rendering when the value is exactly representable, otherwise
    /// the fraction.
    pub fn to_display(self) -> (r: String)
        ensures
            r@ == display(self.n(), self.d()),
    {
        proof {
            use_type_invariant(self);
            self.lemma_wf();
        }
        if self.den == 1 {
            return integer(self.num);
        }
        let mut k: u32 = 0;
        let mut pow: i128 = 1;
        while k <= 9 && pow % self.den != 0
            invariant
                k <= 10,
                self.den > 0,
                k <= 9 ==> pow as int == pow10(k as nat),
                places(self.d()) == places_from(self.d(), k as nat),
                0 < pow <= 10_000_000_000,
            decreases 10 - k,
        {
            proof {
                lemma_pow10_bound(k as nat);
            }
            pow = pow * 10;
            k += 1;
        }
        if k <= 9 {
            proof {
                lemma_pow10_bound(k as nat);
            }
            if let Some(scaled) = self.num.checked_mul(pow) {
                let ghost m = arith::magnitude(self.n());
                let ghost p = pow as int;
                proof {
                    let n = self.n();
                    assert(arith::magnitude(n * p) == arith::magnitude(n) * p) by (nonlinear_arith)
                        requires
                            p > 0,
                    ;
                }
                let v: u128 = unsigned(scaled) / (self.den as u128);
                let unit: u128 = pow as u128;
                let mut out: String = if self.num < 0 {
                    "-".to_owned()
                } else {
                    "".to_owned()
                };
                let whole = natural(v / unit);
                let frac = padded_digits(v % unit, k);
                out.append(whole.as_str());
                out.append(".");
                out.append(frac.as_str());
                return out;
            }
        }
        let mut out = integer(self.num);
        let den = integer(self.den);
        out.append("/");
        out.append(den.as_str());
        out
    }
}

/// Up to nine places, the powers of ten stay small.
proof fn lemma_pow10_bound(k: nat)
    requires
        k <= 9,
    ensures
        0 < pow10(k) <= 1_000_000_000,
        pow10(k + 1) == 10 * pow10(k),
{
    reveal_with_fuel(pow10, 11);
    assert(k == 0 || k == 1 || k == 2 || k == 3 || k == 4 || k == 5 || k == 6 || k == 7 || k == 8
        || k == 9);
}

impl View for Rat {
    type V = Rat;

    open spec fn view(&self) -> Rat {
        *self
    }
}

impl Default for Rat {
    /// Zero, the additive identity a linear form starts from.
    fn default() -> (r: Self)
        ensures
            r.n() == 0,
            r.d() == 1,
    {
        Rat::zero()
    }
}

impl PartialOrd for Rat {
    /// Both denominators are positive, so cross-multiplication preserves the
    /// direction. `None` when a cross product overflows.
    fn partial_cmp(&self, other: &Rat) -> (r: Option<Ordering>) {
        match self.rank(*other) {
            None => None,
            Some(Rank::Less) => Some(Ordering::Less),
            Some(Rank::Same) => Some(Ordering::Equal),
            Some(Rank::More) => Some(Ordering::Greater),
        }
    }
}

impl vstd::std_specs::cmp::PartialOrdSpecImpl for Rat {
    open spec fn obeys_partial_cmp_spec() -> bool {
        true
    }

    open spec fn partial_cmp_spec(&self, other: &Rat) -> Option<Ordering> {
        if !fits(self.n() * other.d()) || !fits(other.n() * self.d()) {
            None
        } else if self.val() < other.val() {
            Some(Ordering::Less)
        } else if self.val() == other.val() {
            Some(Ordering::Equal)
        } else {
            Some(Ordering::Greater)
        }
    }
}

/// An integer as a real number.
pub open spec fn embed(k: int) -> real {
    k as real
}

/// Is the number an integer?
pub open spec fn is_whole(x: real) -> bool {
    exists|k: int| x == #[trigger] embed(k)
}

/// Is `q` the largest integer that is at most `x`?
pub open spec fn is_floor(q: int, x: real) -> bool {
    (q as real) <= x < ((q + 1) as real)
}

/// Is `q` the smallest integer that is at least `x`?
pub open spec fn is_ceiling(q: int, x: real) -> bool {
    ((q - 1) as real) < x <= (q as real)
}

/// Rounding a negative quotient down.
proof fn lemma_floor_negative(a: int, b: int)
    requires
        a < 0,
        b > 0,
    ensures
        a / b == -((-(a + 1)) / b) - 1,
{
    let m = -(a + 1);
    let q = m / b;
    vstd::arithmetic::div_mod::lemma_fundamental_div_mod(m, b);
    vstd::arithmetic::div_mod::lemma_mod_bound(m, b);
    let r = b - 1 - m % b;
    assert(a == (-q - 1) * b + r) by (nonlinear_arith)
        requires
            m == b * q + m % b,
            m == -(a + 1),
            r == b - 1 - m % b,
    ;
    vstd::arithmetic::div_mod::lemma_fundamental_div_mod_converse(a, b, -q - 1, r);
}

/// Dividing a negative number by a divisor of its magnitude.
proof fn lemma_quotient_sign(n: int, g: int)
    requires
        g > 0,
        arith::magnitude(n) == g * (arith::magnitude(n) / g as nat),
    ensures
        n / g == if n < 0 {
            -((arith::magnitude(n) / g as nat) as int)
        } else {
            (arith::magnitude(n) / g as nat) as int
        },
{
    if n < 0 {
        let p = (arith::magnitude(n) / g as nat) as int;
        assert(n == g * (-p)) by (nonlinear_arith)
            requires
                -n == g * p,
        ;
        vstd::arithmetic::div_mod::lemma_div_multiples_vanish(-p, g);
    }
}

/// Every number is coprime to one.
proof fn lemma_gcd_one(a: nat)
    ensures
        arith::gcd(a, 1) == 1,
{
    reveal_with_fuel(arith::gcd, 2);
}

} // verus!
