//! The algebra of linear forms: what a form denotes, and what sums, opposites and
//! multiples of forms are.

use vstd::prelude::*;

use crate::names;
use crate::num::Rat;
use crate::text;

verus! {

/// The terms of a linear form: coefficients by variable name.
pub type Terms = Seq<(Seq<char>, Rat)>;

/// A linear form `k + Σ cᵢ·xᵢ`.
#[verifier::ext_equal]
pub struct LinV {
    pub constant: Rat,
    pub terms: Terms,
}

/// Terms in normal form: sorted by name, no coefficient zero.
pub open spec fn terms_wf(t: Terms) -> bool {
    &&& names::ordered(t)
    &&& forall|i: int| 0 <= i < t.len() ==> (#[trigger] t[i]).1.wf() && t[i].1.n() != 0
}

/// A form in normal form.
pub open spec fn lin_wf(l: LinV) -> bool {
    l.constant.wf() && terms_wf(l.terms)
}

/// The sum of the terms where variable `x` has the value `f(x)`.
pub open spec fn value_terms(t: Terms, f: spec_fn(Seq<char>) -> real) -> real
    decreases t.len(),
{
    if t.len() == 0 {
        0 as real
    } else {
        t[0].1.val() * f(t[0].0) + value_terms(t.drop_first(), f)
    }
}

/// The value of a form where variable `x` has the value `f(x)`.
pub open spec fn value(l: LinV, f: spec_fn(Seq<char>) -> real) -> real {
    l.constant.val() + value_terms(l.terms, f)
}

/// The coefficient of a variable, zero where it does not occur.
pub open spec fn coefficient(t: Terms, name: Seq<char>) -> Rat {
    match names::lookup(t, name) {
        Some(c) => c,
        None => Rat::of(0, 1),
    }
}

/// One term in front of others.
pub open spec fn cons(first: (Seq<char>, Rat), rest: Option<Terms>) -> Option<Terms> {
    match rest {
        Some(t) => Some(seq![first] + t),
        None => None,
    }
}

/// The terms of a sum: coefficients of the same variable are added and dropped where
/// they cancel. `None` where an addition overflows.
pub open spec fn merged(a: Terms, b: Terms) -> Option<Terms>
    decreases a.len() + b.len(),
{
    if a.len() == 0 {
        Some(b)
    } else if b.len() == 0 {
        Some(a)
    } else if a[0].0 == b[0].0 {
        match a[0].1.plus(b[0].1) {
            None => None,
            Some(c) => if c.n() == 0 {
                merged(a.drop_first(), b.drop_first())
            } else {
                cons((a[0].0, c), merged(a.drop_first(), b.drop_first()))
            },
        }
    } else if text::text_less(a[0].0, b[0].0) {
        cons(a[0], merged(a.drop_first(), b))
    } else {
        cons(b[0], merged(a, b.drop_first()))
    }
}

/// The terms of the opposite form. `None` where an opposite overflows.
pub open spec fn opposite_terms(t: Terms) -> Option<Terms>
    decreases t.len(),
{
    if t.len() == 0 {
        Some(t)
    } else {
        match t[0].1.negated() {
            None => None,
            Some(c) => cons((t[0].0, c), opposite_terms(t.drop_first())),
        }
    }
}

/// The terms of a multiple. `None` where a product overflows.
pub open spec fn scaled_terms(t: Terms, k: Rat) -> Option<Terms>
    decreases t.len(),
{
    if t.len() == 0 {
        Some(t)
    } else {
        match t[0].1.times(k) {
            None => None,
            Some(c) => cons((t[0].0, c), scaled_terms(t.drop_first(), k)),
        }
    }
}

/// The form that is constantly `k`.
pub open spec fn constant_form(k: Rat) -> LinV {
    LinV { constant: k, terms: Seq::empty() }
}

/// The form that is the variable `name`.
pub open spec fn variable_form(name: Seq<char>) -> LinV {
    LinV { constant: Rat::of(0, 1), terms: seq![(name, Rat::of(1, 1))] }
}

/// The sum of two forms.
pub open spec fn sum(a: LinV, b: LinV) -> Option<LinV> {
    match (a.constant.plus(b.constant), merged(a.terms, b.terms)) {
        (Some(constant), Some(terms)) => Some(LinV { constant, terms }),
        _ => None,
    }
}

/// The opposite form.
pub open spec fn opposite(l: LinV) -> Option<LinV> {
    match (l.constant.negated(), opposite_terms(l.terms)) {
        (Some(constant), Some(terms)) => Some(LinV { constant, terms }),
        _ => None,
    }
}

/// The difference of two forms.
pub open spec fn difference(a: LinV, b: LinV) -> Option<LinV> {
    match opposite(b) {
        Some(o) => sum(a, o),
        None => None,
    }
}

/// A multiple of a form.
pub open spec fn scaled(l: LinV, k: Rat) -> Option<LinV> {
    if k.n() == 0 {
        Some(constant_form(Rat::of(0, 1)))
    } else {
        match (l.constant.times(k), scaled_terms(l.terms, k)) {
            (Some(constant), Some(terms)) => Some(LinV { constant, terms }),
            _ => None,
        }
    }
}

/// The valuation `f` with the value of `name` replaced by `x`.
pub open spec fn with_value(
    f: spec_fn(Seq<char>) -> real,
    name: Seq<char>,
    x: real,
) -> spec_fn(Seq<char>) -> real {
    |y: Seq<char>| if y == name {
        x
    } else {
        f(y)
    }
}

/// The tail of terms in normal form is in normal form, without the first name.
pub proof fn lemma_tail(t: Terms)
    requires
        terms_wf(t),
        t.len() > 0,
    ensures
        terms_wf(t.drop_first()),
        t[0].1.wf(),
        t[0].1.n() != 0,
        forall|x: Seq<char>| #[trigger]
            names::named(t.drop_first(), x) ==> text::text_less(t[0].0, x) && names::named(t, x),
        forall|x: Seq<char>| #[trigger]
            names::named(t, x) ==> x == t[0].0 || names::named(t.drop_first(), x),
{
    let u = t.drop_first();
    assert forall|i: int, j: int| 0 <= i < j < u.len() implies text::text_less(u[i].0, u[j].0) by {
        assert(text::text_less(t[i + 1].0, t[j + 1].0));
    }
    assert forall|i: int| 0 <= i < u.len() implies (#[trigger] u[i]).1.wf() && u[i].1.n() != 0 by {
        assert(u[i] == t[i + 1]);
    }
    assert forall|x: Seq<char>| #[trigger] names::named(u, x) implies text::text_less(t[0].0, x)
        && names::named(t, x) by {
        let k = choose|k: int| 0 <= k < u.len() && (#[trigger] u[k]).0 == x;
        assert(t[k + 1].0 == x);
        assert(text::text_less(t[0].0, t[k + 1].0));
    }
    assert forall|x: Seq<char>| #[trigger] names::named(t, x) implies x == t[0].0
        || names::named(u, x) by {
        let k = choose|k: int| 0 <= k < t.len() && (#[trigger] t[k]).0 == x;
        if k > 0 {
            assert(u[k - 1].0 == x);
        }
    }
}

/// A term in front of larger ones.
proof fn lemma_cons(first: (Seq<char>, Rat), t: Terms, f: spec_fn(Seq<char>) -> real)
    requires
        terms_wf(t),
        first.1.wf(),
        first.1.n() != 0,
        forall|x: Seq<char>| #[trigger] names::named(t, x) ==> text::text_less(first.0, x),
    ensures
        terms_wf(seq![first] + t),
        value_terms(seq![first] + t, f) == first.1.val() * f(first.0) + value_terms(t, f),
        forall|x: Seq<char>| #[trigger]
            names::named(seq![first] + t, x) <==> x == first.0 || names::named(t, x),
{
    let u = seq![first] + t;
    assert(u.drop_first() =~= t);
    assert(u[0] == first);
    assert forall|i: int, j: int| 0 <= i < j < u.len() implies text::text_less(u[i].0, u[j].0) by {
        assert(u[j] == t[j - 1]);
        assert(names::named(t, u[j].0));
        if i > 0 {
            assert(u[i] == t[i - 1]);
        }
    }
    assert forall|i: int| 0 <= i < u.len() implies (#[trigger] u[i]).1.wf() && u[i].1.n() != 0 by {
        if i > 0 {
            assert(u[i] == t[i - 1]);
        }
    }
    assert forall|x: Seq<char>| #[trigger] names::named(u, x) <==> x == first.0 || names::named(
        t,
        x,
    ) by {
        if names::named(t, x) {
            let k = choose|k: int| 0 <= k < t.len() && (#[trigger] t[k]).0 == x;
            assert(u[k + 1].0 == x);
        }
        if x == first.0 {
            assert(u[0].0 == x);
        }
        if names::named(u, x) {
            let k = choose|k: int| 0 <= k < u.len() && (#[trigger] u[k]).0 == x;
            if k > 0 {
                assert(t[k - 1].0 == x);
            }
        }
    }
}

/// Merging keeps the normal form and adds the values.
pub proof fn lemma_merged(a: Terms, b: Terms, f: spec_fn(Seq<char>) -> real)
    requires
        terms_wf(a),
        terms_wf(b),
    ensures
        merged(a, b) matches Some(m) ==> terms_wf(m) && value_terms(m, f) == value_terms(a, f)
            + value_terms(b, f) && (forall|x: Seq<char>| #[trigger]
            names::named(m, x) ==> names::named(a, x) || names::named(b, x)),
    decreases a.len() + b.len(),
{
    if a.len() > 0 && b.len() > 0 && merged(a, b) is Some {
        let m = merged(a, b)->0;
        lemma_tail(a);
        lemma_tail(b);
        let (x, y) = (a[0].0, b[0].0);
        assert(names::named(a, x));
        assert(names::named(b, y));
        if x == y {
            lemma_merged(a.drop_first(), b.drop_first(), f);
            a[0].1.lemma_plus(b[0].1);
            let c = a[0].1.plus(b[0].1)->0;
            let (p, q, u) = (a[0].1.val(), b[0].1.val(), f(x));
            assert((p + q) * u == p * u + q * u) by (nonlinear_arith);
            c.lemma_wf();
            if c.n() != 0 {
                lemma_cons((x, c), merged(a.drop_first(), b.drop_first())->0, f);
            } else {
                assert(c.val() * u == 0 as real) by (nonlinear_arith)
                    requires
                        c.val() == 0 as real,
                ;
            }
        } else if text::text_less(x, y) {
            lemma_merged(a.drop_first(), b, f);
            let t = merged(a.drop_first(), b)->0;
            assert forall|z: Seq<char>| #[trigger] names::named(t, z) implies text::text_less(
                x,
                z,
            ) by {
                if names::named(b, z) && z != y {
                    text::lemma_text_transitive(x, y, z);
                }
            }
            lemma_cons(a[0], t, f);
        } else {
            text::lemma_text_total(x, y);
            lemma_merged(a, b.drop_first(), f);
            let t = merged(a, b.drop_first())->0;
            assert forall|z: Seq<char>| #[trigger] names::named(t, z) implies text::text_less(
                y,
                z,
            ) by {
                if names::named(a, z) && z != x {
                    text::lemma_text_transitive(y, x, z);
                }
            }
            lemma_cons(b[0], t, f);
        }
    }
}

/// Opposite terms keep the names and negate the value.
pub proof fn lemma_opposite_terms(t: Terms, f: spec_fn(Seq<char>) -> real)
    requires
        terms_wf(t),
    ensures
        opposite_terms(t) matches Some(m) ==> terms_wf(m) && value_terms(m, f) == -value_terms(t, f)
            && (forall|x: Seq<char>| #[trigger] names::named(m, x) <==> names::named(t, x)),
    decreases t.len(),
{
    if t.len() > 0 && opposite_terms(t) is Some {
        lemma_tail(t);
        lemma_opposite_terms(t.drop_first(), f);
        t[0].1.lemma_negated();
        let c = t[0].1.negated()->0;
        let (p, u) = (t[0].1.val(), f(t[0].0));
        assert((-p) * u == -(p * u)) by (nonlinear_arith);
        lemma_cons((t[0].0, c), opposite_terms(t.drop_first())->0, f);
        assert(names::named(t, t[0].0));
    }
}

/// Terms multiplied by a number that is not zero keep the names.
pub proof fn lemma_scaled_terms(t: Terms, k: Rat, f: spec_fn(Seq<char>) -> real)
    requires
        terms_wf(t),
        k.wf(),
        k.n() != 0,
    ensures
        scaled_terms(t, k) matches Some(m) ==> terms_wf(m) && value_terms(m, f) == k.val()
            * value_terms(t, f) && (forall|x: Seq<char>| #[trigger]
            names::named(m, x) <==> names::named(t, x)),
    decreases t.len(),
{
    if t.len() == 0 {
        let p = k.val();
        assert(p * (0 as real) == 0 as real) by (nonlinear_arith);
    } else if scaled_terms(t, k) is Some {
        lemma_tail(t);
        lemma_scaled_terms(t.drop_first(), k, f);
        t[0].1.lemma_times(k);
        k.lemma_wf();
        t[0].1.lemma_wf();
        let c = t[0].1.times(k)->0;
        c.lemma_wf();
        let (p, q, u, w) = (t[0].1.val(), k.val(), f(t[0].0), value_terms(t.drop_first(), f));
        assert(p * q != 0 as real) by (nonlinear_arith)
            requires
                p != 0 as real,
                q != 0 as real,
        ;
        assert((p * q) * u == q * (p * u)) by (nonlinear_arith);
        assert(q * (p * u + w) == q * (p * u) + q * w) by (nonlinear_arith);
        lemma_cons((t[0].0, c), scaled_terms(t.drop_first(), k)->0, f);
        assert(names::named(t, t[0].0));
    }
}

/// Sums of forms are exact.
pub proof fn lemma_sum(a: LinV, b: LinV, f: spec_fn(Seq<char>) -> real)
    requires
        lin_wf(a),
        lin_wf(b),
    ensures
        sum(a, b) matches Some(l) ==> lin_wf(l) && value(l, f) == value(a, f) + value(b, f) && (
        forall|x: Seq<char>| #[trigger]
            names::named(l.terms, x) ==> names::named(a.terms, x) || names::named(b.terms, x)),
{
    a.constant.lemma_plus(b.constant);
    lemma_merged(a.terms, b.terms, f);
}

/// Opposites of forms are exact.
pub proof fn lemma_opposite(l: LinV, f: spec_fn(Seq<char>) -> real)
    requires
        lin_wf(l),
    ensures
        opposite(l) matches Some(o) ==> lin_wf(o) && value(o, f) == -value(l, f) && (forall|
            x: Seq<char>,
        | #[trigger]
            names::named(o.terms, x) <==> names::named(l.terms, x)),
{
    l.constant.lemma_negated();
    lemma_opposite_terms(l.terms, f);
}

/// Multiples of forms are exact.
pub proof fn lemma_scaled(l: LinV, k: Rat, f: spec_fn(Seq<char>) -> real)
    requires
        lin_wf(l),
        k.wf(),
    ensures
        scaled(l, k) matches Some(m) ==> lin_wf(m) && value(m, f) == k.val() * value(l, f) && (
        forall|x: Seq<char>| #[trigger] names::named(m.terms, x) ==> names::named(l.terms, x)),
{
    k.lemma_wf();
    let (p, q, w) = (l.constant.val(), k.val(), value_terms(l.terms, f));
    if k.n() == 0 {
        Rat::lemma_whole(0);
        assert(q * (p + w) == 0 as real) by (nonlinear_arith)
            requires
                q == 0 as real,
        ;
    } else {
        l.constant.lemma_times(k);
        lemma_scaled_terms(l.terms, k, f);
        assert(q * (p + w) == p * q + q * w) by (nonlinear_arith);
    }
}

/// The value depends on the variables that occur only.
pub proof fn lemma_value_agree(
    t: Terms,
    f: spec_fn(Seq<char>) -> real,
    g: spec_fn(Seq<char>) -> real,
)
    requires
        forall|x: Seq<char>| #[trigger] names::named(t, x) ==> f(x) == g(x),
    ensures
        value_terms(t, f) == value_terms(t, g),
    decreases t.len(),
{
    if t.len() > 0 {
        let u = t.drop_first();
        assert(names::named(t, t[0].0));
        assert forall|x: Seq<char>| #[trigger] names::named(u, x) implies f(x) == g(x) by {
            let k = choose|k: int| 0 <= k < u.len() && (#[trigger] u[k]).0 == x;
            assert(t[k + 1].0 == x);
            assert(names::named(t, x));
        }
        lemma_value_agree(u, f, g);
    }
}

/// The last term adds its part to the value.
pub proof fn lemma_value_last(t: Terms, f: spec_fn(Seq<char>) -> real)
    requires
        t.len() > 0,
    ensures
        value_terms(t, f) == value_terms(t.drop_last(), f) + t.last().1.val() * f(t.last().0),
    decreases t.len(),
{
    if t.len() > 1 {
        lemma_value_last(t.drop_first(), f);
        assert(t.drop_first().drop_last() =~= t.drop_last().drop_first());
        assert(t.drop_last()[0] == t[0]);
        assert(t.drop_first().last() == t.last());
    } else {
        reveal_with_fuel(value_terms, 2);
    }
}

/// A variable contributes its coefficient times its value.
pub proof fn lemma_with_value(t: Terms, f: spec_fn(Seq<char>) -> real, name: Seq<char>, x: real)
    requires
        terms_wf(t),
    ensures
        value_terms(t, with_value(f, name, x)) == value_terms(t, with_value(f, name, 0 as real))
            + coefficient(t, name).val() * x,
        coefficient(t, name).wf(),
        coefficient(t, name).n() != 0 <==> names::named(t, name),
    decreases t.len(),
{
    Rat::lemma_whole(0);
    let f0 = with_value(f, name, 0 as real);
    let fx = with_value(f, name, x);
    if names::named(t, name) {
        let i = names::place(t, name);
        assert(t[i].0 == name);
        names::lemma_lookup_at(t, i);
    }
    if t.len() > 0 {
        lemma_tail(t);
        let u = t.drop_first();
        lemma_with_value(u, f, name, x);
        let c = t[0].1.val();
        if t[0].0 == name {
            names::lemma_lookup_at(t, 0);
            if names::named(u, name) {
                text::lemma_text_irreflexive(name);
            }
            assert(fx(name) == x && f0(name) == 0 as real);
            assert(c * (0 as real) == 0 as real) by (nonlinear_arith);
            assert((0 as real) * x == 0 as real) by (nonlinear_arith);
        } else {
            assert(fx(t[0].0) == f0(t[0].0));
            assert(coefficient(t, name) == coefficient(u, name)) by {
                if names::named(u, name) {
                    let j = names::place(u, name);
                    assert(u[j].0 == name);
                    assert(t[j + 1] == u[j]);
                    names::lemma_lookup_at(u, j);
                    names::lemma_lookup_at(t, j + 1);
                }
            }
        }
    } else {
        assert((0 as real) * x == 0 as real) by (nonlinear_arith);
    }
}

/// The coefficients of a sum are the sums of the coefficients.
pub proof fn lemma_sum_coefficient(a: LinV, b: LinV, name: Seq<char>)
    requires
        lin_wf(a),
        lin_wf(b),
    ensures
        sum(a, b) matches Some(l) ==> coefficient(l.terms, name).val() == coefficient(
            a.terms,
            name,
        ).val() + coefficient(b.terms, name).val(),
{
    if let Some(l) = sum(a, b) {
        let zero = |x: Seq<char>| 0 as real;
        let f0 = with_value(zero, name, 0 as real);
        let f1 = with_value(zero, name, 1 as real);
        lemma_sum(a, b, f0);
        lemma_sum(a, b, f1);
        lemma_with_value(a.terms, zero, name, 1 as real);
        lemma_with_value(b.terms, zero, name, 1 as real);
        lemma_with_value(l.terms, zero, name, 1 as real);
        lemma_times_one(coefficient(a.terms, name).val());
        lemma_times_one(coefficient(b.terms, name).val());
        lemma_times_one(coefficient(l.terms, name).val());
    }
}

/// The coefficients of a multiple are the multiples of the coefficients.
pub proof fn lemma_scaled_coefficient(l: LinV, k: Rat, name: Seq<char>)
    requires
        lin_wf(l),
        k.wf(),
    ensures
        scaled(l, k) matches Some(m) ==> coefficient(m.terms, name).val() == k.val() * coefficient(
            l.terms,
            name,
        ).val(),
{
    if let Some(m) = scaled(l, k) {
        let zero = |x: Seq<char>| 0 as real;
        let f0 = with_value(zero, name, 0 as real);
        let f1 = with_value(zero, name, 1 as real);
        lemma_scaled(l, k, f0);
        lemma_scaled(l, k, f1);
        lemma_with_value(l.terms, zero, name, 1 as real);
        lemma_with_value(m.terms, zero, name, 1 as real);
        let c = coefficient(l.terms, name).val();
        let p = value(l, f0);
        let q = k.val();
        lemma_times_one(c);
        lemma_times_one(coefficient(m.terms, name).val());
        assert(q * (p + c) == q * p + q * c) by (nonlinear_arith);
    }
}

proof fn lemma_times_one(x: real)
    ensures
        x * (1 as real) == x,
{
    assert(x * (1 as real) == x) by (nonlinear_arith);
}

} // verus!
