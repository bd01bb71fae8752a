//! When the solver gives up: only where a ceiling was reached or exact arithmetic
//! overflowed.

use vstd::prelude::*;

use crate::decision;
use crate::decision::{AnswerV, Limits};
use crate::linear;
use crate::linear::Terms;
use crate::logic;
use crate::logic::{AtomV, ExprV};
use crate::num;
use crate::num::Rat;
use crate::semantics;
use crate::semantics::Sorts;
use crate::soundness;
use crate::theory;
use crate::theory::{Bound, ConV, FeasibleV, Limit};

verus! {

// ── Elimination ─────────────────────────────────────────────────────────────────

/// The inequalities that bound `var` from that side: from below where `s` is negative,
/// from above where it is positive, and not at all where it is zero.
pub open spec fn sided(var: Seq<char>, s: int) -> spec_fn(ConV) -> bool {
    |c: ConV| theory::sign(linear::coefficient(c.lin.terms, var).n()) == s
}

/// How many inequalities bound `var` from that side.
pub open spec fn count_on(cs: Seq<ConV>, var: Seq<char>, s: int) -> nat {
    cs.filter(sided(var, s)).len()
}

/// How many inequalities result when `var` is eliminated: those without it, and one for
/// each pair of a lower and an upper bound on it.
pub open spec fn step_size(cs: Seq<ConV>, var: Seq<char>) -> nat {
    count_on(cs, var, 0) + count_on(cs, var, -1) * count_on(cs, var, 1)
}

/// What is left once `var` is eliminated, however much that is. `None` where a
/// combination overflows.
pub open spec fn after_step(cs: Seq<ConV>, var: Seq<char>) -> Option<Seq<ConV>> {
    match theory::combined_all(cs.filter(sided(var, -1)), cs.filter(sided(var, 1)), var) {
        Some(new) => Some(cs.filter(sided(var, 0)) + new),
        None => None,
    }
}

/// What is left once the first `k` variables are eliminated.
pub open spec fn level(cs: Seq<ConV>, vars: Seq<Seq<char>>, k: int) -> Option<Seq<ConV>>
    decreases k,
{
    if k <= 0 {
        Some(cs)
    } else {
        match level(cs, vars, k - 1) {
            Some(c) => after_step(c, vars[k - 1]),
            None => None,
        }
    }
}

proof fn lemma_filtered(cs: Seq<ConV>, var: Seq<char>, s: int)
    ensures
        theory::selected(cs, var, s) == cs.filter(sided(var, s)),
    decreases cs.len(),
{
    reveal(Seq::filter);
    if cs.len() > 0 {
        lemma_filtered(cs.drop_last(), var, s);
    }
}

proof fn lemma_combined_count(lo: ConV, ups: Seq<ConV>, var: Seq<char>)
    ensures
        theory::combined_with(lo, ups, var) matches Some(r) ==> r.len() == ups.len(),
    decreases ups.len(),
{
    if ups.len() > 0 {
        lemma_combined_count(lo, ups.drop_last(), var);
    }
}

proof fn lemma_pairs_count(los: Seq<ConV>, ups: Seq<ConV>, var: Seq<char>)
    ensures
        theory::combined_all(los, ups, var) matches Some(r) ==> r.len() == los.len() * ups.len(),
    decreases los.len(),
{
    if los.len() > 0 {
        lemma_pairs_count(los.drop_last(), ups, var);
        lemma_combined_count(los.last(), ups, var);
        let (n, m) = (los.len() as int, ups.len() as int);
        assert((n - 1) * m + m == n * m) by (nonlinear_arith);
    }
}

/// Eliminating a variable leaves as many inequalities as there are without it and pairs
/// of a lower and an upper bound on it.
pub proof fn lemma_step_size(cs: Seq<ConV>, var: Seq<char>)
    ensures
        after_step(cs, var) matches Some(next) ==> next.len() == step_size(cs, var),
{
    lemma_pairs_count(cs.filter(sided(var, -1)), cs.filter(sided(var, 1)), var);
}

proof fn lemma_level_shift(
    cs: Seq<ConV>,
    next: Seq<ConV>,
    vars: Seq<Seq<char>>,
    k: int,
)
    requires
        vars.len() > 0,
        after_step(cs, vars[0]) == Some(next),
        0 <= k < vars.len(),
    ensures
        level(cs, vars, k + 1) == level(next, vars.drop_first(), k),
    decreases k,
{
    reveal_with_fuel(level, 2);
    if k > 0 {
        lemma_level_shift(cs, next, vars, k - 1);
        assert(vars.drop_first()[k - 1] == vars[k]);
    }
}

/// Is there a reason to stop when `var` is eliminated, `later` being the variables that
/// come after it? Too many inequalities would result; or a combination overflows; or the
/// arithmetic of finding a value for `var` does, once the later variables have theirs.
pub open spec fn stop_cause(
    cs: Seq<ConV>,
    var: Seq<char>,
    later: Seq<Seq<char>>,
    max: nat,
    l: Limit,
) -> bool {
    ||| l == Limit::Constraints && step_size(cs, var) > max && count_on(cs, var, -1) > 0
        && count_on(cs, var, 1) > 0
    ||| l == Limit::Overflow && after_step(cs, var) is None
    ||| l == Limit::Overflow && exists|m: Terms| #[trigger] no_value(cs, var, later, max, m)
}

/// Do these values for the later variables leave no value to be computed for `var`?
pub open spec fn no_value(
    cs: Seq<ConV>,
    var: Seq<char>,
    later: Seq<Seq<char>>,
    max: nat,
    m: Terms,
) -> bool {
    &&& after_step(cs, var) matches Some(next) && theory::elimination(next, later, max)
        == FeasibleV::Feasible(m)
    &&& theory::choice(cs, var, m) is None
}

/// Is there a reason to stop at the variable at `k`?
pub open spec fn stops_at(cs: Seq<ConV>, vars: Seq<Seq<char>>, max: nat, l: Limit, k: int) -> bool {
    level(cs, vars, k) matches Some(c) && stop_cause(c, vars[k], vars.skip(k + 1), max, l)
}

/// Elimination stops only for a reason: at some variable, what is left by then would grow
/// beyond the ceiling, or exact arithmetic overflows.
pub proof fn lemma_elimination_stops(cs: Seq<ConV>, vars: Seq<Seq<char>>, max: nat)
    ensures
        theory::elimination(cs, vars, max) matches FeasibleV::Stop(l) ==> exists|k: int|
            0 <= k < vars.len() && #[trigger] stops_at(cs, vars, max, l, k),
    decreases vars.len(),
{
    if let FeasibleV::Stop(l) = theory::elimination(cs, vars, max) {
        if vars.len() > 0 {
            let var = vars[0];
            let tail = vars.drop_first();
            lemma_filtered(cs, var, -1);
            lemma_filtered(cs, var, 0);
            lemma_filtered(cs, var, 1);
            assert(vars.skip(1) =~= tail);
            let (n, m) = (count_on(cs, var, -1) as int, count_on(cs, var, 1) as int);
            assert(n * m > 0 ==> n > 0 && m > 0) by (nonlinear_arith)
                requires
                    n >= 0,
                    m >= 0,
            ;
            match theory::eliminated(cs, var, max) {
                Err(_) => {
                    assert(stops_at(cs, vars, max, l, 0));
                },
                Ok(next) => {
                    assert(after_step(cs, var) == Some(next));
                    lemma_elimination_stops(next, tail, max);
                    match theory::elimination(next, tail, max) {
                        FeasibleV::Feasible(m) => {
                            assert(no_value(cs, var, tail, max, m));
                            assert(stops_at(cs, vars, max, l, 0));
                        },
                        _ => {
                            let k = choose|k: int|
                                0 <= k < tail.len() && #[trigger] stops_at(next, tail, max, l, k);
                            lemma_level_shift(cs, next, vars, k);
                            assert(tail[k] == vars[k + 1]);
                            assert(tail.skip(k + 1) =~= vars.skip(k + 2));
                            assert(stops_at(cs, vars, max, l, k + 1));
                        },
                    }
                },
            }
        }
    }
}

/// Does every step stay within the ceiling and within exact arithmetic?
pub open spec fn runs_through(cs: Seq<ConV>, vars: Seq<Seq<char>>, max: nat) -> bool {
    forall|k: int|
        0 <= k < vars.len() ==> {
            &&& #[trigger] level(cs, vars, k) matches Some(c)
            &&& step_size(c, vars[k]) <= max
            &&& after_step(c, vars[k]) is Some
            &&& forall|m: Terms| !#[trigger] no_value(c, vars[k], vars.skip(k + 1), max, m)
        }
}

/// Elimination is complete: inequalities whose steps all stay within the ceiling and
/// within exact arithmetic are decided, however many variables they have. The answer is
/// `Infeasible` exactly where no values satisfy them.
pub proof fn lemma_elimination_complete(cs: Seq<ConV>, max: nat)
    requires
        theory::cons_wf(cs),
        runs_through(cs, theory::listing(cs), max),
    ensures
        !(theory::elimination(cs, theory::listing(cs), max) is Stop),
        theory::elimination(cs, theory::listing(cs), max) is Infeasible <==> forall|
            f: spec_fn(Seq<char>) -> real,
        |
            !#[trigger] theory::cons_hold(cs, f),
{
    let vars = theory::listing(cs);
    theory::lemma_listing(cs);
    theory::lemma_elimination(cs, vars, max);
    lemma_elimination_stops(cs, vars, max);
    if let FeasibleV::Stop(l) = theory::elimination(cs, vars, max) {
        let k = choose|k: int| 0 <= k < vars.len() && #[trigger] stops_at(cs, vars, max, l, k);
        let c = level(cs, vars, k)->0;
        if exists|m: Terms| #[trigger] no_value(c, vars[k], vars.skip(k + 1), max, m) {
            let m = choose|m: Terms| #[trigger] no_value(c, vars[k], vars.skip(k + 1), max, m);
            assert(!no_value(c, vars[k], vars.skip(k + 1), max, m));
        }
    }
    if let FeasibleV::Feasible(m) = theory::elimination(cs, vars, max) {
        assert(theory::cons_hold(cs, theory::assigned(m)));
    }
}

/// The ceiling is kept: where elimination does not stop, no step left more inequalities
/// than the ceiling allows, unless it combined none.
pub proof fn lemma_ceiling_kept(cs: Seq<ConV>, vars: Seq<Seq<char>>, max: nat, k: int)
    requires
        !(theory::elimination(cs, vars, max) is Stop),
        0 <= k < vars.len(),
    ensures
        level(cs, vars, k) matches Some(c) && (step_size(c, vars[k]) <= max || count_on(
            c,
            vars[k],
            -1,
        ) * count_on(c, vars[k], 1) == 0),
    decreases k,
{
    let var = vars[0];
    let tail = vars.drop_first();
    lemma_filtered(cs, var, -1);
    lemma_filtered(cs, var, 0);
    lemma_filtered(cs, var, 1);
    let next = theory::eliminated(cs, var, max)->Ok_0;
    assert(after_step(cs, var) == Some(next));
    if k > 0 {
        lemma_ceiling_kept(next, tail, max, k - 1);
        lemma_level_shift(cs, next, vars, k - 1);
        assert(tail[k - 1] == vars[k]);
    }
}

// ── Arithmetic on whole numbers ─────────────────────────────────────────────────

/// Is it a whole number of magnitude at most `b`?
pub open spec fn small(r: Rat, b: int) -> bool {
    r.wf() && r.d() == 1 && -b <= r.n() <= b
}

/// Is the form one with whole coefficients of magnitude at most `b`?
pub open spec fn small_form(l: linear::LinV, b: int) -> bool {
    &&& linear::lin_wf(l)
    &&& small(l.constant, b)
    &&& small_terms(l.terms, b)
}

/// Are the coefficients whole and of magnitude at most `b`?
pub open spec fn small_terms(t: Terms, b: int) -> bool {
    forall|i: int| 0 <= i < t.len() ==> small((#[trigger] t[i]).1, b)
}

/// Are the forms ones with whole coefficients of magnitude at most `b`?
pub open spec fn small_cons(cs: Seq<ConV>, b: int) -> bool {
    forall|i: int| 0 <= i < cs.len() ==> small_form((#[trigger] cs[i]).lin, b)
}

/// Whole numbers add up exactly, as long as the sum is in range.
pub proof fn lemma_small_plus(x: Rat, y: Rat, p: int, q: int)
    requires
        small(x, p),
        small(y, q),
        p + q <= i128::MAX,
    ensures
        x.plus(y) matches Some(r) && small(r, p + q) && r.n() == x.n() + y.n(),
{
    let (a, b) = (x.n(), y.n());
    assert(a * 1 == a && b * 1 == b) by (nonlinear_arith);
    Rat::lemma_whole(a + b);
}

/// Whole numbers multiply exactly, as long as the product is in range.
pub proof fn lemma_small_times(x: Rat, y: Rat, p: int, q: int)
    requires
        small(x, p),
        small(y, q),
        p * q <= i128::MAX,
    ensures
        x.times(y) matches Some(r) && small(r, p * q) && r.n() == x.n() * y.n(),
{
    let (a, b) = (x.n(), y.n());
    assert(-(p * q) <= a * b <= p * q) by (nonlinear_arith)
        requires
            -p <= a <= p,
            -q <= b <= q,
    ;
    Rat::lemma_whole(a * b);
}

/// Opposites of whole numbers are exact.
pub proof fn lemma_small_negated(x: Rat, p: int)
    requires
        small(x, p),
        p <= i128::MAX,
    ensures
        x.negated() matches Some(r) && small(r, p) && r.n() == -x.n(),
{
    Rat::lemma_whole(-x.n());
}

proof fn lemma_small_tail(t: Terms, b: int)
    requires
        small_terms(t, b),
        t.len() > 0,
    ensures
        small_terms(t.drop_first(), b),
        small(t[0].1, b),
{
    let u = t.drop_first();
    assert forall|i: int| 0 <= i < u.len() implies small((#[trigger] u[i]).1, b) by {
        assert(u[i] == t[i + 1]);
    }
}

proof fn lemma_small_cons(first: (Seq<char>, Rat), t: Terms, b: int)
    requires
        small(first.1, b),
        small_terms(t, b),
    ensures
        small_terms(seq![first] + t, b),
{
    let u = seq![first] + t;
    assert forall|i: int| 0 <= i < u.len() implies small((#[trigger] u[i]).1, b) by {
        if i > 0 {
            assert(u[i] == t[i - 1]);
        }
    }
}

proof fn lemma_small_scaled_terms(t: Terms, k: Rat, p: int, q: int)
    requires
        small_terms(t, p),
        small(k, q),
        p * q <= i128::MAX,
    ensures
        linear::scaled_terms(t, k) matches Some(m) && small_terms(m, p * q),
    decreases t.len(),
{
    if t.len() > 0 {
        lemma_small_tail(t, p);
        lemma_small_scaled_terms(t.drop_first(), k, p, q);
        lemma_small_times(t[0].1, k, p, q);
        lemma_small_cons(
            (t[0].0, t[0].1.times(k)->0),
            linear::scaled_terms(t.drop_first(), k)->0,
            p * q,
        );
    }
}

proof fn lemma_small_more(t: Terms, p: int, q: int)
    requires
        small_terms(t, p),
        p <= q,
    ensures
        small_terms(t, q),
{
}

proof fn lemma_small_merged(a: Terms, b: Terms, p: int)
    requires
        small_terms(a, p),
        small_terms(b, p),
        0 <= p,
        2 * p <= i128::MAX,
    ensures
        linear::merged(a, b) matches Some(m) && small_terms(m, 2 * p),
    decreases a.len() + b.len(),
{
    if a.len() == 0 {
        lemma_small_more(b, p, 2 * p);
    } else if b.len() == 0 {
        lemma_small_more(a, p, 2 * p);
    } else {
        lemma_small_tail(a, p);
        lemma_small_tail(b, p);
        if a[0].0 == b[0].0 {
            lemma_small_merged(a.drop_first(), b.drop_first(), p);
            lemma_small_plus(a[0].1, b[0].1, p, p);
            lemma_small_cons(
                (a[0].0, a[0].1.plus(b[0].1)->0),
                linear::merged(a.drop_first(), b.drop_first())->0,
                2 * p,
            );
        } else if crate::text::text_less(a[0].0, b[0].0) {
            lemma_small_merged(a.drop_first(), b, p);
            lemma_small_cons(a[0], linear::merged(a.drop_first(), b)->0, 2 * p);
        } else {
            lemma_small_merged(a, b.drop_first(), p);
            lemma_small_cons(b[0], linear::merged(a, b.drop_first())->0, 2 * p);
        }
    }
}

/// Forms with whole coefficients add up, as long as the sums are in range.
pub proof fn lemma_small_sum(a: linear::LinV, b: linear::LinV, p: int)
    requires
        small_form(a, p),
        small_form(b, p),
        0 <= p,
        2 * p <= i128::MAX,
    ensures
        linear::sum(a, b) matches Some(l) && small_form(l, 2 * p),
{
    lemma_small_plus(a.constant, b.constant, p, p);
    lemma_small_merged(a.terms, b.terms, p);
    linear::lemma_sum(a, b, |x: Seq<char>| 0 as real);
}

/// Forms with whole coefficients can be multiplied, as long as the products are in range.
pub proof fn lemma_small_scaled(l: linear::LinV, k: Rat, p: int, q: int)
    requires
        small_form(l, p),
        small(k, q),
        0 <= p,
        0 <= q,
        p * q <= i128::MAX,
    ensures
        linear::scaled(l, k) matches Some(m) && small_form(m, p * q),
{
    linear::lemma_scaled(l, k, |x: Seq<char>| 0 as real);
    assert(p * q >= 0) by (nonlinear_arith)
        requires
            p >= 0,
            q >= 0,
    ;
    if k.n() == 0 {
        Rat::lemma_whole(0);
    } else {
        lemma_small_times(l.constant, k, p, q);
        lemma_small_scaled_terms(l.terms, k, p, q);
    }
}

proof fn lemma_small_opposite_terms(t: Terms, p: int)
    requires
        small_terms(t, p),
        p <= i128::MAX,
    ensures
        linear::opposite_terms(t) matches Some(m) && small_terms(m, p),
    decreases t.len(),
{
    if t.len() > 0 {
        lemma_small_tail(t, p);
        lemma_small_opposite_terms(t.drop_first(), p);
        lemma_small_negated(t[0].1, p);
        lemma_small_cons(
            (t[0].0, t[0].1.negated()->0),
            linear::opposite_terms(t.drop_first())->0,
            p,
        );
    }
}

/// Forms with whole coefficients have opposites.
pub proof fn lemma_small_opposite(l: linear::LinV, p: int)
    requires
        small_form(l, p),
        p <= i128::MAX,
    ensures
        linear::opposite(l) matches Some(o) && small_form(o, p),
{
    lemma_small_negated(l.constant, p);
    lemma_small_opposite_terms(l.terms, p);
    linear::lemma_opposite(l, |x: Seq<char>| 0 as real);
}

proof fn lemma_small_coefficient(t: Terms, name: Seq<char>, b: int)
    requires
        small_terms(t, b),
        0 <= b,
    ensures
        small(linear::coefficient(t, name), b),
{
    Rat::lemma_whole(0);
    if crate::names::named(t, name) {
        let i = crate::names::place(t, name);
        assert(t[i].0 == name);
        assert(small(t[i].1, b));
    }
}

/// Inequalities with whole coefficients combine, as long as the results are in range.
pub proof fn lemma_small_combined(lo: ConV, up: ConV, var: Seq<char>, b: int)
    requires
        small_form(lo.lin, b),
        small_form(up.lin, b),
        0 <= b,
        2 * (b * b) <= i128::MAX,
    ensures
        theory::combined(lo, up, var) matches Some(c) && small_form(c.lin, 2 * (b * b)),
{
    let (x, y) = (
        linear::coefficient(lo.lin.terms, var),
        linear::coefficient(up.lin.terms, var),
    );
    lemma_small_coefficient(lo.lin.terms, var, b);
    lemma_small_coefficient(up.lin.terms, var, b);
    assert(b <= 2 * (b * b) && b * b >= 0) by (nonlinear_arith)
        requires
            b >= 0,
    ;
    lemma_small_negated(x, b);
    lemma_small_scaled(up.lin, x.negated()->0, b, b);
    lemma_small_scaled(lo.lin, y, b, b);
    lemma_small_sum(linear::scaled(up.lin, x.negated()->0)->0, linear::scaled(lo.lin, y)->0, b * b);
}

proof fn lemma_small_combined_with(lo: ConV, ups: Seq<ConV>, var: Seq<char>, b: int)
    requires
        small_form(lo.lin, b),
        small_cons(ups, b),
        0 <= b,
        2 * (b * b) <= i128::MAX,
    ensures
        theory::combined_with(lo, ups, var) matches Some(r) && small_cons(r, 2 * (b * b)),
    decreases ups.len(),
{
    if ups.len() > 0 {
        let init = ups.drop_last();
        assert forall|i: int| 0 <= i < init.len() implies small_form(
            (#[trigger] init[i]).lin,
            b,
        ) by {
            assert(init[i] == ups[i]);
        }
        assert(small_form(ups[ups.len() - 1].lin, b));
        lemma_small_combined_with(lo, init, var, b);
        lemma_small_combined(lo, ups.last(), var, b);
    }
}

proof fn lemma_small_combined_all(los: Seq<ConV>, ups: Seq<ConV>, var: Seq<char>, b: int)
    requires
        small_cons(los, b),
        small_cons(ups, b),
        0 <= b,
        2 * (b * b) <= i128::MAX,
    ensures
        theory::combined_all(los, ups, var) matches Some(r) && small_cons(r, 2 * (b * b)),
    decreases los.len(),
{
    if los.len() > 0 {
        let init = los.drop_last();
        assert forall|i: int| 0 <= i < init.len() implies small_form(
            (#[trigger] init[i]).lin,
            b,
        ) by {
            assert(init[i] == los[i]);
        }
        assert(small_form(los[los.len() - 1].lin, b));
        lemma_small_combined_all(init, ups, var, b);
        lemma_small_combined_with(los.last(), ups, var, b);
    }
}

proof fn lemma_filter_from(cs: Seq<ConV>, var: Seq<char>, s: int, b: int)
    requires
        small_cons(cs, b),
    ensures
        small_cons(cs.filter(sided(var, s)), b),
    decreases cs.len(),
{
    reveal(Seq::filter);
    if cs.len() > 0 {
        let init = cs.drop_last();
        assert forall|i: int| 0 <= i < init.len() implies small_form(
            (#[trigger] init[i]).lin,
            b,
        ) by {
            assert(init[i] == cs[i]);
        }
        assert(small_form(cs[cs.len() - 1].lin, b));
        lemma_filter_from(init, var, s, b);
    }
}

/// A bound on the coefficients after `k` eliminations.
pub open spec fn grown(b: int, k: int) -> int
    decreases k,
{
    if k <= 0 {
        b
    } else {
        2 * (grown(b, k - 1) * grown(b, k - 1))
    }
}

proof fn lemma_grown(b: int, k: int)
    requires
        0 <= b,
        0 <= k,
    ensures
        0 <= grown(b, k) <= grown(b, k + 1),
    decreases k,
{
    if k > 0 {
        lemma_grown(b, k - 1);
    }
    let g = grown(b, k);
    assert(0 <= g <= 2 * (g * g)) by (nonlinear_arith)
        requires
            g >= 0,
    ;
}

/// Eliminating variables from inequalities with whole coefficients does not overflow, as
/// long as the bound on the coefficients stays in range: what is left after each step is
/// defined, and its coefficients keep to the bound.
pub proof fn lemma_small_levels(cs: Seq<ConV>, vars: Seq<Seq<char>>, b: int, k: int)
    requires
        small_cons(cs, b),
        0 <= b,
        0 <= k <= vars.len(),
        grown(b, k) <= i128::MAX,
    ensures
        level(cs, vars, k) matches Some(c) && small_cons(c, grown(b, k)),
    decreases k,
{
    if k > 0 {
        lemma_grown(b, k - 1);
        lemma_small_levels(cs, vars, b, k - 1);
        let c = level(cs, vars, k - 1)->0;
        let var = vars[k - 1];
        let g = grown(b, k - 1);
        lemma_filter_from(c, var, -1, g);
        lemma_filter_from(c, var, 0, g);
        lemma_filter_from(c, var, 1, g);
        lemma_small_combined_all(c.filter(sided(var, -1)), c.filter(sided(var, 1)), var, g);
        let rest = c.filter(sided(var, 0));
        let new = theory::combined_all(
            c.filter(sided(var, -1)),
            c.filter(sided(var, 1)),
            var,
        )->0;
        let all = rest + new;
        assert forall|i: int| 0 <= i < all.len() implies small_form(
            (#[trigger] all[i]).lin,
            grown(b, k),
        ) by {
            if i < rest.len() {
                assert(all[i] == rest[i]);
                assert(small_form(rest[i].lin, g));
            } else {
                assert(all[i] == new[i - rest.len()]);
            }
        }
    }
}

// ── Finding a value ─────────────────────────────────────────────────────────────

/// Does evaluating the bound that the inequality at `i` puts on `var` overflow?
pub open spec fn bound_lost(cs: Seq<ConV>, var: Seq<char>, m: Terms, i: int) -> bool {
    &&& 0 <= i < cs.len()
    &&& linear::coefficient(cs[i].lin.terms, var).n() != 0
    &&& theory::bound_of(cs[i], var, m) is None
}

/// Does comparing the bounds that two inequalities put on `var` overflow?
pub open spec fn ranking_lost(cs: Seq<ConV>, var: Seq<char>, m: Terms, i: int, j: int) -> bool {
    &&& 0 <= i < cs.len()
    &&& 0 <= j < cs.len()
    &&& theory::bound_of(cs[i], var, m) matches Some(p) && (theory::bound_of(
        cs[j],
        var,
        m,
    ) matches Some(q) && p != q && p.ranked(q) is None)
}

/// Is the bound the one that some inequality puts on `var`?
spec fn put_by(cs: Seq<ConV>, var: Seq<char>, m: Terms, b: Bound) -> bool {
    b matches Some((r, _)) ==> exists|i: int|
        0 <= i < cs.len() && theory::bound_of(#[trigger] cs[i], var, m) == Some(r)
}

proof fn lemma_put_more(cs: Seq<ConV>, var: Seq<char>, m: Terms, b: Bound)
    requires
        cs.len() > 0,
        put_by(cs.drop_last(), var, m, b),
    ensures
        put_by(cs, var, m, b),
{
    if let Some((r, _)) = b {
        let init = cs.drop_last();
        let i = choose|i: int|
            0 <= i < init.len() && theory::bound_of(#[trigger] init[i], var, m) == Some(r);
        assert(cs[i] == init[i]);
    }
}

proof fn lemma_bounds_cause(cs: Seq<ConV>, var: Seq<char>, m: Terms)
    ensures
        theory::bounds(cs, var, m) matches Some((lo, up)) ==> put_by(cs, var, m, lo) && put_by(
            cs,
            var,
            m,
            up,
        ),
        theory::bounds(cs, var, m) is None ==> (exists|i: int| #[trigger]
            bound_lost(cs, var, m, i)) || (exists|i: int, j: int| #[trigger]
            ranking_lost(cs, var, m, i, j)),
    decreases cs.len(),
{
    if cs.len() > 0 {
        let init = cs.drop_last();
        let n = cs.len() - 1;
        let c = cs[n];
        lemma_bounds_cause(init, var, m);
        match theory::bounds(init, var, m) {
            None => {
                if exists|i: int| #[trigger] bound_lost(init, var, m, i) {
                    let i = choose|i: int| #[trigger] bound_lost(init, var, m, i);
                    assert(cs[i] == init[i]);
                    assert(bound_lost(cs, var, m, i));
                } else {
                    let (i, j) = choose|i: int, j: int| #[trigger]
                        ranking_lost(init, var, m, i, j);
                    assert(cs[i] == init[i] && cs[j] == init[j]);
                    assert(ranking_lost(cs, var, m, i, j));
                }
            },
            Some((lo, up)) => {
                lemma_put_more(cs, var, m, lo);
                lemma_put_more(cs, var, m, up);
                let a = theory::sign(linear::coefficient(c.lin.terms, var).n());
                if a != 0 {
                    match theory::bound_of(c, var, m) {
                        None => {
                            assert(bound_lost(cs, var, m, n));
                        },
                        Some(b) => {
                            let best = if a > 0 {
                                up
                            } else {
                                lo
                            };
                            let t = theory::tighter(best, b, c.strict, a > 0);
                            if t is None {
                                let r = (best->0).0;
                                let i = choose|i: int|
                                    0 <= i < cs.len() && theory::bound_of(
                                        #[trigger] cs[i],
                                        var,
                                        m,
                                    ) == Some(r);
                                assert(ranking_lost(cs, var, m, n, i));
                            } else {
                                assert(put_by(cs, var, m, Some(t->0))) by {
                                    if (t->0).0 == b {
                                        assert(theory::bound_of(cs[n], var, m) == Some(b));
                                    }
                                }
                            }
                        },
                    }
                }
            },
        }
    }
}

/// No value is found only for a reason: evaluating a bound overflows, or comparing two of
/// them does, or the bounds leave no room, or computing a value between them overflows.
pub proof fn lemma_choice_cause(cs: Seq<ConV>, var: Seq<char>, m: Terms)
    requires
        theory::cons_wf(cs),
        theory::model_wf(m),
        theory::choice(cs, var, m) is None,
    ensures
        ({
            ||| exists|i: int| #[trigger] bound_lost(cs, var, m, i)
            ||| exists|i: int, j: int| #[trigger] ranking_lost(cs, var, m, i, j)
            ||| theory::bounds(cs, var, m) matches Some((lo, up)) && (!theory::consistent(lo, up)
                || theory::out_of_range(lo, up))
        }),
{
    lemma_bounds_cause(cs, var, m);
    if let Some((lo, up)) = theory::bounds(cs, var, m) {
        theory::lemma_bounds_wf(cs, var, m);
        if theory::consistent(lo, up) {
            theory::lemma_picked(lo, up);
        }
    }
}

/// Do the values of the other variables of the terms exist, whole and of magnitude at most
/// `q`?
pub open spec fn small_values(t: Terms, var: Seq<char>, m: Terms, q: int) -> bool {
    forall|i: int|
        0 <= i < t.len() && (#[trigger] t[i]).0 != var ==> (crate::names::lookup(
            m,
            t[i].0,
        ) matches Some(x) && small(x, q))
}

/// A form with whole coefficients is evaluated exactly on whole values, as long as the
/// result is in range.
pub proof fn lemma_small_rest(k: Rat, t: Terms, var: Seq<char>, m: Terms, p: int, q: int)
    requires
        small(k, p),
        small_terms(t, p),
        small_values(t, var, m, q),
        0 <= p,
        0 <= q,
        p + t.len() * (p * q) <= i128::MAX,
    ensures
        theory::rest_value(k, t, var, m) matches Some(r) && small(r, p + t.len() * (p * q)),
    decreases t.len(),
{
    let n = t.len() as int;
    let pq = p * q;
    assert(pq >= 0) by (nonlinear_arith)
        requires
            p >= 0,
            q >= 0,
            pq == p * q,
    ;
    if n > 0 {
        let init = t.drop_last();
        assert((n - 1) * pq + pq == n * pq && (n - 1) * pq >= 0) by (nonlinear_arith)
            requires
                n >= 1,
                pq >= 0,
        ;
        assert forall|i: int| 0 <= i < init.len() implies small((#[trigger] init[i]).1, p) by {
            assert(init[i] == t[i]);
        }
        assert forall|i: int| 0 <= i < init.len() && (#[trigger] init[i]).0 != var implies (
        crate::names::lookup(m, init[i].0) matches Some(x) && small(x, q)) by {
            assert(init[i] == t[i]);
        }
        lemma_small_rest(k, init, var, m, p, q);
        let total = theory::rest_value(k, init, var, m)->0;
        assert(small(t[n - 1].1, p));
        if t[n - 1].0 != var {
            let x = crate::names::lookup(m, t[n - 1].0)->0;
            lemma_small_times(t[n - 1].1, x, p, q);
            lemma_small_plus(total, t[n - 1].1.times(x)->0, p + (n - 1) * pq, pq);
        }
    } else {
        assert(n * pq == 0) by (nonlinear_arith)
            requires
                n == 0,
        ;
    }
}

/// An inequality with whole coefficients puts a bound on each of its variables where the
/// others have whole values, as long as the arithmetic stays in range.
pub proof fn lemma_small_bound(c: ConV, var: Seq<char>, m: Terms, p: int, q: int)
    requires
        small_form(c.lin, p),
        small_values(c.lin.terms, var, m, q),
        linear::coefficient(c.lin.terms, var).n() != 0,
        0 <= p,
        0 <= q,
        p + c.lin.terms.len() * (p * q) <= i128::MAX,
    ensures
        theory::bound_of(c, var, m) is Some,
{
    let a = linear::coefficient(c.lin.terms, var);
    let n = c.lin.terms.len() as int;
    let pq = p * q;
    assert(n * pq >= 0) by (nonlinear_arith)
        requires
            n >= 0,
            p >= 0,
            q >= 0,
            pq == p * q,
    ;
    lemma_small_coefficient(c.lin.terms, var, p);
    lemma_small_rest(c.lin.constant, c.lin.terms, var, m, p, q);
    let rest = theory::rest_value(c.lin.constant, c.lin.terms, var, m)->0;
    lemma_small_negated(rest, p + n * pq);
    let r = rest.negated()->0;
    let (x, z) = (r.n() * a.d(), r.d() * a.n());
    assert(x == r.n() && z == a.n()) by (nonlinear_arith)
        requires
            a.d() == 1,
            r.d() == 1,
            x == r.n() * a.d(),
            z == r.d() * a.n(),
    ;
    crate::arith::lemma_lowest_terms_value(x, z);
}

/// Are numerator and denominator of magnitude at most two to the power of 62?
pub open spec fn moderate(r: Rat) -> bool {
    &&& r.wf()
    &&& -0x4000_0000_0000_0000 <= r.n() <= 0x4000_0000_0000_0000
    &&& r.d() <= 0x4000_0000_0000_0000
}

proof fn lemma_moderate_product(a: int, b: int)
    requires
        -0x4000_0000_0000_0000 <= a <= 0x4000_0000_0000_0000,
        -0x4000_0000_0000_0000 <= b <= 0x4000_0000_0000_0000,
    ensures
        -0x1000_0000_0000_0000_0000_0000_0000_0000 <= a * b
            <= 0x1000_0000_0000_0000_0000_0000_0000_0000,
{
    assert(-0x1000_0000_0000_0000_0000_0000_0000_0000 <= a * b
        <= 0x1000_0000_0000_0000_0000_0000_0000_0000) by (nonlinear_arith)
        requires
            -0x4000_0000_0000_0000 <= a <= 0x4000_0000_0000_0000,
            -0x4000_0000_0000_0000 <= b <= 0x4000_0000_0000_0000,
    ;
}

/// Arithmetic on moderate numbers does not overflow: they have a sum, a difference and a
/// product, a quotient where the divisor is not zero, and they can be compared.
pub proof fn lemma_moderate(x: Rat, y: Rat)
    requires
        moderate(x),
        moderate(y),
    ensures
        x.plus(y) is Some,
        x.minus(y) is Some,
        x.times(y) is Some,
        y.n() != 0 ==> x.over(y) is Some,
        x.ranked(y) is Some,
        x.halfway(y) is Some,
        x.negated() is Some,
{
    x.lemma_wf();
    y.lemma_wf();
    lemma_moderate_product(x.n(), y.d());
    lemma_moderate_product(y.n(), x.d());
    lemma_moderate_product(x.d(), y.d());
    lemma_moderate_product(x.n(), y.n());
    lemma_moderate_product(x.d(), y.n());
    let o = Rat::of(-y.n(), y.d());
    crate::arith::lemma_lowest_terms_value(-y.n(), y.d());
    Rat::lemma_of(-y.n(), y.d());
    lemma_moderate_product(x.n(), o.d());
    lemma_moderate_product(o.n(), x.d());
    lemma_moderate_product(x.d(), o.d());
    if y.n() != 0 {
        let (p, q) = (x.d(), y.n());
        assert(p * q != 0) by (nonlinear_arith)
            requires
                p > 0,
                q != 0,
        ;
        crate::arith::lemma_lowest_terms_value(x.n() * y.d(), p * q);
    }
    // The sum is halved.
    let (n, d) = (x.n() * y.d() + y.n() * x.d(), x.d() * y.d());
    assert(d > 0) by (nonlinear_arith)
        requires
            x.d() > 0,
            y.d() > 0,
            d == x.d() * y.d(),
    ;
    crate::arith::lemma_lowest_terms_value(n, d);
    Rat::lemma_of(n, d);
    Rat::lemma_whole(2);
    let s = Rat::of(n, d);
    s.lemma_wf();
    crate::arith::lemma_lowest_terms_value(s.n() * 1, s.d() * 2);
}

// ── Branch and bound ────────────────────────────────────────────────────────────

/// A cut off a whole number exists for every number in range but the least.
pub proof fn lemma_cuts(x: Seq<char>, q: int)
    requires
        num::fits(q),
    ensures
        theory::at_least(x, q) is Some,
        q != i128::MIN ==> theory::at_most(x, q) is Some,
{
    let zero = |y: Seq<char>| 0 as real;
    theory::lemma_variable_form(x, zero);
    let v = linear::variable_form(x);
    Rat::lemma_whole(0);
    Rat::lemma_whole(1);
    Rat::lemma_whole(q);
    let c = linear::constant_form(Rat::of(q, 1));
    lemma_small_negated(Rat::of(0, 1), 0);
    lemma_small_negated(Rat::of(1, 1), 1);
    reveal_with_fuel(linear::opposite_terms, 2);
    let t = v.terms;
    assert(t.drop_first() =~= Seq::empty());
    let o = linear::opposite(v)->0;
    assert(o.terms.len() == 1);
    assert(0 * 1 == 0 && q * 1 == q && 0 + q == q);
    assert(linear::merged(o.terms, c.terms) == Some(o.terms));
    if q != i128::MIN {
        Rat::lemma_whole(-q);
        let d = linear::constant_form(Rat::of(-q, 1));
        assert(linear::merged(v.terms, d.terms) == Some(v.terms));
    }
}

/// Are these cuts off variables that have to be whole numbers?
pub open spec fn are_cuts(env: Sorts, cuts: Seq<ConV>) -> bool {
    forall|i: int| 0 <= i < cuts.len() ==> is_cut(env, #[trigger] cuts[i])
}

/// Is that a cut off a variable that has to be a whole number?
pub open spec fn is_cut(env: Sorts, c: ConV) -> bool {
    exists|x: Seq<char>, q: int|
        theory::is_int(env, x) && (theory::at_most(x, q) == Some(c) || #[trigger] theory::at_least(
            x,
            q,
        ) == Some(c))
}

/// Is there a reason to stop with these inequalities, after that many branchings? Their
/// elimination stops; or a variable comes out fractional and the branchings are used up
/// or its whole neighbours are out of range.
pub open spec fn branch_cause(
    env: Sorts,
    cs: Seq<ConV>,
    used: nat,
    max_cons: nat,
    max_used: nat,
    l: Limit,
) -> bool {
    ||| theory::elimination(cs, theory::listing(cs), max_cons) == FeasibleV::Stop(l)
    ||| theory::elimination(cs, theory::listing(cs), max_cons) matches FeasibleV::Feasible(m)
        && exists|i: int|
        0 <= i < m.len() && theory::is_int(env, (#[trigger] m[i]).0) && m[i].1.d() != 1 && {
            ||| l == Limit::Branches && used >= max_used
            ||| l == Limit::Bound && !cuts_exist(m[i].0, m[i].1)
        }
}

/// Are there cuts below and above the value of a variable?
pub open spec fn cuts_exist(x: Seq<char>, r: Rat) -> bool {
    &&& theory::at_most(x, r.n() / r.d()) is Some
    &&& theory::at_least(x, -((-r.n()) / r.d())) is Some
}

/// Is there a reason to stop with the inequalities and these cuts?
pub open spec fn cut_cause(
    env: Sorts,
    cs: Seq<ConV>,
    cuts: Seq<ConV>,
    used: nat,
    max_cons: nat,
    max_used: nat,
    l: Limit,
) -> bool {
    are_cuts(env, cuts) && branch_cause(env, cs + cuts, used, max_cons, max_used, l)
}

proof fn lemma_cut_first(
    env: Sorts,
    cs: Seq<ConV>,
    c: ConV,
    cuts: Seq<ConV>,
    used: nat,
    max_cons: nat,
    max_used: nat,
    l: Limit,
)
    requires
        is_cut(env, c),
        cut_cause(env, cs.push(c), cuts, used, max_cons, max_used, l),
    ensures
        cut_cause(env, cs, seq![c] + cuts, used, max_cons, max_used, l),
{
    let all = seq![c] + cuts;
    assert(cs + all =~= cs.push(c) + cuts);
    assert forall|i: int| 0 <= i < all.len() implies is_cut(env, #[trigger] all[i]) by {
        if i > 0 {
            assert(all[i] == cuts[i - 1]);
        }
    }
}

/// Branch and bound stops only for a reason, which some cuts off whole numbers bring out.
pub proof fn lemma_branching_stops(
    env: Sorts,
    cs: Seq<ConV>,
    used: nat,
    max_cons: nat,
    max_used: nat,
)
    ensures
        theory::branching(env, cs, used, max_cons, max_used).0 matches FeasibleV::Stop(l)
            ==> exists|cuts: Seq<ConV>, u: nat| #[trigger]
            cut_cause(env, cs, cuts, u, max_cons, max_used, l),
    decreases theory::left(used, max_used),
{
    if let FeasibleV::Stop(l) = theory::branching(env, cs, used, max_cons, max_used).0 {
        let none = Seq::<ConV>::empty();
        assert(cs + none =~= cs);
        match theory::elimination(cs, theory::listing(cs), max_cons) {
            FeasibleV::Feasible(m) => {
                theory::lemma_fractional(env, m, 0);
                let i = theory::fractional(env, m, 0)->0;
                let (x, r) = m[i];
                let (p, q) = (r.n() / r.d(), -((-r.n()) / r.d()));
                if used >= max_used || !cuts_exist(x, r) {
                    assert(cut_cause(env, cs, none, used, max_cons, max_used, l));
                } else {
                    let (lower, upper) = (theory::at_most(x, p)->0, theory::at_least(x, q)->0);
                    assert(is_cut(env, lower)) by {
                        assert(theory::at_least(x, p) == theory::at_least(x, p));
                        assert(theory::at_most(x, p) == Some(lower));
                    }
                    assert(is_cut(env, upper));
                    lemma_branching_stops(env, cs.push(lower), used + 1, max_cons, max_used);
                    let (r1, u1) = theory::branching(
                        env,
                        cs.push(lower),
                        used + 1,
                        max_cons,
                        max_used,
                    );
                    if r1 is Stop {
                        let (cuts, u) = choose|cuts: Seq<ConV>, u: nat| #[trigger]
                            cut_cause(env, cs.push(lower), cuts, u, max_cons, max_used, l);
                        lemma_cut_first(env, cs, lower, cuts, u, max_cons, max_used, l);
                        assert(cut_cause(
                            env,
                            cs,
                            seq![lower] + cuts,
                            u,
                            max_cons,
                            max_used,
                            l,
                        ));
                    } else {
                        lemma_branching_stops(env, cs.push(upper), u1, max_cons, max_used);
                        let (cuts, u) = choose|cuts: Seq<ConV>, u: nat| #[trigger]
                            cut_cause(env, cs.push(upper), cuts, u, max_cons, max_used, l);
                        lemma_cut_first(env, cs, upper, cuts, u, max_cons, max_used, l);
                        assert(cut_cause(
                            env,
                            cs,
                            seq![upper] + cuts,
                            u,
                            max_cons,
                            max_used,
                            l,
                        ));
                    }
                }
            },
            _ => {
                assert(cut_cause(env, cs, none, used, max_cons, max_used, l));
            },
        }
    }
}

// ── Decisions ───────────────────────────────────────────────────────────────────

/// Does the theory stop on that assignment of the first atoms?
pub open spec fn theory_stops(
    env: Sorts,
    atoms: Seq<AtomV>,
    asg: Seq<bool>,
    used: nat,
    lim: Limits,
    l: Limit,
) -> bool {
    &&& asg.len() <= atoms.len()
    &&& decision::theory_check(env, atoms, asg, used, lim).0 == FeasibleV::Stop(l)
}

proof fn lemma_search_stops(
    env: Sorts,
    cs: Seq<ExprV>,
    atoms: Seq<AtomV>,
    asg: Seq<bool>,
    nodes: nat,
    branches: nat,
    lim: Limits,
)
    requires
        asg.len() <= atoms.len(),
    ensures
        ({
            let r = decision::search(env, cs, atoms, asg, nodes, branches, lim);
            let all = soundness::split_nodes((atoms.len() - asg.len()) as nat);
            &&& r.nodes <= nodes + all
            &&& r.answer matches AnswerV::Stop(l) ==> {
                ||| l == Limit::Nodes && nodes + all > lim.nodes
                ||| exists|a: Seq<bool>, used: nat| #[trigger]
                    theory_stops(env, atoms, a, used, lim, l)
            }
        }),
    decreases atoms.len() - asg.len(),
{
    if nodes < lim.nodes && !decision::refuted(cs, atoms, asg) {
        let (t, b) = decision::theory_check(env, atoms, asg, branches, lim);
        if let FeasibleV::Stop(l) = t {
            assert(theory_stops(env, atoms, asg, branches, lim, l));
        }
        if t is Feasible && !decision::confirmed(cs, atoms, asg) && asg.len() < atoms.len() {
            lemma_search_stops(env, cs, atoms, asg.push(true), nodes + 1, b, lim);
            let r = decision::search(env, cs, atoms, asg.push(true), nodes + 1, b, lim);
            lemma_search_stops(env, cs, atoms, asg.push(false), r.nodes, r.branches, lim);
        }
    }
}

/// The solver gives up only for a reason: the formulas have more atoms than allowed, or a
/// complete case split on them would take more nodes than allowed, or the theory stops on
/// some assignment of the first atoms.
pub proof fn lemma_unknown_has_cause(env: Sorts, cs: Seq<ExprV>, lim: Limits)
    requires
        decision::decision(env, cs, lim) is Unknown,
    ensures
        ({
            let atoms = decision::distinct(logic::atoms_of_all(cs));
            ||| atoms.len() > lim.atoms
            ||| soundness::split_nodes(atoms.len()) > lim.nodes
            ||| exists|a: Seq<bool>, used: nat, l: Limit| #[trigger]
                theory_stops(env, atoms, a, used, lim, l)
        }),
{
    let atoms = decision::distinct(logic::atoms_of_all(cs));
    lemma_search_stops(env, cs, atoms, Seq::empty(), 0, 0, lim);
    if atoms.len() <= lim.atoms {
        let l = decision::search(env, cs, atoms, Seq::empty(), 0, 0, lim).answer->Stop_0;
        if soundness::split_nodes(atoms.len()) <= lim.nodes {
            let (a, used) = choose|a: Seq<bool>, used: nat| #[trigger]
                theory_stops(env, atoms, a, used, lim, l);
            assert(theory_stops(env, atoms, a, used, lim, l));
        }
    }
}

/// Does negating a numeric atom that is assigned false overflow?
pub open spec fn negation_lost(atoms: Seq<AtomV>, asg: Seq<bool>, i: int) -> bool {
    &&& 0 <= i < asg.len()
    &&& !asg[i]
    &&& match atoms[i] {
        AtomV::Le(l) => linear::opposite(l) is None,
        AtomV::Lt(l) => linear::opposite(l) is None,
        _ => false,
    }
}

proof fn lemma_numeric_cause(atoms: Seq<AtomV>, asg: Seq<bool>)
    requires
        asg.len() <= atoms.len(),
    ensures
        decision::numeric(atoms, asg) is None ==> exists|i: int| #[trigger]
            negation_lost(atoms, asg, i),
    decreases asg.len(),
{
    if asg.len() > 0 && decision::numeric(atoms, asg) is None {
        let init = asg.drop_last();
        lemma_numeric_cause(atoms, init);
        if decision::numeric(atoms, init) is None {
            let i = choose|i: int| #[trigger] negation_lost(atoms, init, i);
            assert(negation_lost(atoms, asg, i));
        } else {
            assert(negation_lost(atoms, asg, asg.len() - 1));
        }
    }
}

/// The theory stops only for a reason: negating an atom overflows, or branch and bound on
/// what the assigned atoms state stops, with its reason.
pub proof fn lemma_theory_stops(
    env: Sorts,
    atoms: Seq<AtomV>,
    asg: Seq<bool>,
    used: nat,
    lim: Limits,
    l: Limit,
)
    requires
        theory_stops(env, atoms, asg, used, lim, l),
    ensures
        ({
            ||| exists|i: int| #[trigger] negation_lost(atoms, asg, i)
            ||| decision::numeric(atoms, asg) matches Some(ncs) && exists|
                cuts: Seq<ConV>,
                u: nat,
            | #[trigger]
                cut_cause(env, ncs, cuts, u, lim.cons, lim.branches, l)
        }),
{
    lemma_numeric_cause(atoms, asg);
    if let Some(ncs) = decision::numeric(atoms, asg) {
        lemma_branching_stops(env, ncs, used, lim.cons, lim.branches);
    }
}

/// The solver is complete, with numbers too: formulas whose atoms the budget allows to be
/// split completely are decided, and rightly so, where the theory stops on no assignment
/// of the first atoms.
pub proof fn lemma_decides(env: Sorts, cs: Seq<ExprV>, lim: Limits)
    requires
        decision::distinct(logic::atoms_of_all(cs)).len() <= lim.atoms,
        soundness::split_nodes(decision::distinct(logic::atoms_of_all(cs)).len()) <= lim.nodes,
        forall|a: Seq<bool>, used: nat, l: Limit|
            !#[trigger] theory_stops(
                env,
                decision::distinct(logic::atoms_of_all(cs)),
                a,
                used,
                lim,
                l,
            ),
        soundness::atoms_wf(cs),
        soundness::inhabited(env, cs),
    ensures
        semantics::satisfiable(env, cs) <==> decision::decision(env, cs, lim) is Sat,
        !semantics::satisfiable(env, cs) <==> decision::decision(env, cs, lim) is Unsat,
{
    let o = decision::decision(env, cs, lim);
    if o is Unknown {
        lemma_unknown_has_cause(env, cs, lim);
    }
    soundness::lemma_truthful(env, cs, lim, o);
}

/// The search visits no more nodes than the budget allows.
pub proof fn lemma_nodes_kept(
    env: Sorts,
    cs: Seq<ExprV>,
    atoms: Seq<AtomV>,
    asg: Seq<bool>,
    nodes: nat,
    branches: nat,
    lim: Limits,
)
    requires
        nodes <= lim.nodes,
    ensures
        decision::search(env, cs, atoms, asg, nodes, branches, lim).nodes <= lim.nodes,
        decision::search(env, cs, atoms, asg, nodes, branches, lim).nodes >= nodes,
    decreases atoms.len() - asg.len(),
{
    if nodes < lim.nodes && asg.len() < atoms.len() {
        let (t, b) = decision::theory_check(env, atoms, asg, branches, lim);
        lemma_nodes_kept(env, cs, atoms, asg.push(true), nodes + 1, b, lim);
        let r = decision::search(env, cs, atoms, asg.push(true), nodes + 1, b, lim);
        lemma_nodes_kept(env, cs, atoms, asg.push(false), r.nodes, r.branches, lim);
    }
}

/// Budgets are kept: formulas with more distinct atoms than are allowed are not decided, and
/// nothing is decided where no node may be visited.
pub proof fn lemma_budget_kept(env: Sorts, cs: Seq<ExprV>, lim: Limits)
    ensures
        decision::distinct(logic::atoms_of_all(cs)).len() > lim.atoms ==> decision::decision(
            env,
            cs,
            lim,
        ) is Unknown,
        lim.nodes == 0 ==> decision::decision(env, cs, lim) is Unknown,
{
}

/// Atoms are tried true before false: what a search finds extends the truth values that it
/// starts from, and makes the next atom false only where nothing was found with it true.
pub proof fn lemma_true_first(
    env: Sorts,
    cs: Seq<ExprV>,
    atoms: Seq<AtomV>,
    asg: Seq<bool>,
    nodes: nat,
    branches: nat,
    lim: Limits,
)
    ensures
        decision::search(env, cs, atoms, asg, nodes, branches, lim).answer
            matches decision::AnswerV::Found(a, _) ==> {
            &&& asg.is_prefix_of(a)
            &&& a.len() > asg.len() && !a[asg.len() as int] ==> decision::search(
                env,
                cs,
                atoms,
                asg.push(true),
                nodes + 1,
                decision::theory_check(env, atoms, asg, branches, lim).1,
                lim,
            ).answer is Nothing
        },
    decreases atoms.len() - asg.len(),
{
    if nodes < lim.nodes && asg.len() < atoms.len() {
        let (t, b) = decision::theory_check(env, atoms, asg, branches, lim);
        lemma_true_first(env, cs, atoms, asg.push(true), nodes + 1, b, lim);
        let r = decision::search(env, cs, atoms, asg.push(true), nodes + 1, b, lim);
        lemma_true_first(env, cs, atoms, asg.push(false), r.nodes, r.branches, lim);
        if let decision::AnswerV::Found(a, _) = decision::search(
            env,
            cs,
            atoms,
            asg,
            nodes,
            branches,
            lim,
        ).answer {
            if a.len() > asg.len() {
                let next = if r.answer is Nothing {
                    asg.push(false)
                } else {
                    asg.push(true)
                };
                assert(next.is_prefix_of(a));
                assert(next[asg.len() as int] == a[asg.len() as int]);
                assert(asg =~= next.drop_last());
                assert(asg =~= a.subrange(0, asg.len() as int));
            }
        }
    }
}

/// A text variable that nothing pins down is given the first of its values that has not been
/// ruled out, and none only where all have.
pub proof fn lemma_first_free(
    atoms: Seq<AtomV>,
    asg: Seq<bool>,
    name: Seq<char>,
    values: Seq<Seq<char>>,
    k: int,
)
    requires
        0 <= k <= values.len(),
    ensures
        decision::free_text(atoms, asg, name, values, k) is None <==> forall|i: int|
            k <= i < values.len() ==> decision::assigned_value(
                atoms,
                asg,
                AtomV::EnumEq(name, #[trigger] values[i]),
            ) == Some(false),
        decision::free_text(atoms, asg, name, values, k) matches Some(t) ==> exists|i: int|
            {
                &&& k <= i < values.len()
                &&& #[trigger] values[i] == t
                &&& decision::assigned_value(atoms, asg, AtomV::EnumEq(name, t)) != Some(false)
                &&& forall|j: int|
                    k <= j < i ==> decision::assigned_value(
                        atoms,
                        asg,
                        AtomV::EnumEq(name, #[trigger] values[j]),
                    ) == Some(false)
            },
    decreases values.len() - k,
{
    if k < values.len() {
        lemma_first_free(atoms, asg, name, values, k + 1);
        assert(values[k] == values[k]);
    }
}

/// The whole number that is picked is the one nearest to the lower bound, or, where there is
/// none, the one nearest to the upper bound, or else zero.
pub proof fn lemma_nearest_picked(lo: theory::Bound, up: theory::Bound, q: int)
    requires
        lo matches Some((l, _)) ==> l.wf() && num::fits(theory::least_whole(lo)->0),
        up matches Some((h, _)) ==> h.wf() && num::fits(theory::greatest_whole(up)->0),
        theory::within(num::embed(q), lo, up),
    ensures
        theory::picked(lo, up) matches Some(x) && {
            &&& lo is Some ==> x.val() <= num::embed(q)
            &&& lo is None && up is Some ==> x.val() >= num::embed(q)
            &&& lo is None && up is None ==> x.val() == 0 as real
            &&& num::is_whole(x.val())
        },
{
    if lo is Some {
        theory::lemma_least_whole(lo, q);
        let l = theory::least_whole(lo)->0;
        Rat::lemma_whole(l);
        assert((l as real) <= (q as real));
    }
    if up is Some {
        theory::lemma_greatest_whole(up, q);
        let h = theory::greatest_whole(up)->0;
        Rat::lemma_whole(h);
        assert((h as real) >= (q as real));
    }
    Rat::lemma_whole(0);
    let x = theory::picked(lo, up)->0;
    let k = if lo is Some {
        theory::least_whole(lo)->0
    } else if up is Some {
        theory::greatest_whole(up)->0
    } else {
        0
    };
    assert(x.val() == num::embed(k));
}

} // verus!
