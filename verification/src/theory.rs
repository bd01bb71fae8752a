//! Linear arithmetic as mathematics: Fourier–Motzkin elimination over the rationals,
//! branch and bound on top of it for whole numbers, and why both are right.

use vstd::prelude::*;

use crate::linear;
use crate::linear::{LinV, Terms};
use crate::logic::VarTypeV;
use crate::names;
use crate::num;
use crate::num::Rat;
use crate::semantics::Sorts;
use crate::text;
use crate::text::Rank;

verus! {

/// What ran out.
#[derive(Clone, Copy, Debug, PartialEq, Eq, Structural)]
pub enum Limit {
    /// The wall clock.
    Time,
    /// Nodes of the boolean case split.
    Nodes,
    /// Constraints of an elimination step.
    Constraints,
    /// Nodes of the branch and bound.
    Branches,
    /// The range of a bound on a whole number.
    Bound,
    /// The range of the exact arithmetic.
    Overflow,
}

/// A linear inequality: `lin < 0` when `strict`, otherwise `lin <= 0`.
#[verifier::ext_equal]
pub struct ConV {
    pub lin: LinV,
    pub strict: bool,
}

/// A bound on a variable, and whether it is strict.
pub type Bound = Option<(Rat, bool)>;

/// What a decision procedure for inequalities answers.
pub enum FeasibleV {
    /// These values satisfy them.
    Feasible(Terms),
    /// No values satisfy them.
    Infeasible,
    /// Something ran out first.
    Stop(Limit),
}

/// Is the number on the right side of zero?
pub open spec fn meets(x: real, strict: bool) -> bool {
    if strict {
        x < 0 as real
    } else {
        x <= 0 as real
    }
}

/// Is the inequality true of the values?
pub open spec fn con_holds(c: ConV, f: spec_fn(Seq<char>) -> real) -> bool {
    meets(linear::value(c.lin, f), c.strict)
}

/// Are all the inequalities true of the values?
pub open spec fn cons_hold(cs: Seq<ConV>, f: spec_fn(Seq<char>) -> real) -> bool {
    forall|i: int| 0 <= i < cs.len() ==> con_holds(#[trigger] cs[i], f)
}

/// Are all the forms in normal form?
pub open spec fn cons_wf(cs: Seq<ConV>) -> bool {
    forall|i: int| 0 <= i < cs.len() ==> linear::lin_wf((#[trigger] cs[i]).lin)
}

/// Does the variable occur in the inequalities?
pub open spec fn occurs(cs: Seq<ConV>, x: Seq<char>) -> bool {
    exists|i: int| 0 <= i < cs.len() && names::named((#[trigger] cs[i]).lin.terms, x)
}

/// The values that a model gives, zero for the variables it leaves out.
pub open spec fn assigned(m: Terms) -> spec_fn(Seq<char>) -> real {
    |x: Seq<char>|
        match names::lookup(m, x) {
            Some(r) => r.val(),
            None => 0 as real,
        }
}

/// The sign of an integer.
pub open spec fn sign(x: int) -> int {
    if x > 0 {
        1
    } else if x < 0 {
        -1
    } else {
        0
    }
}

/// The inequalities in which the coefficient of `var` has a given sign.
pub open spec fn selected(cs: Seq<ConV>, var: Seq<char>, s: int) -> Seq<ConV>
    decreases cs.len(),
{
    if cs.len() == 0 {
        cs
    } else {
        let front = selected(cs.drop_last(), var, s);
        if sign(linear::coefficient(cs.last().lin.terms, var).n()) == s {
            front.push(cs.last())
        } else {
            front
        }
    }
}

/// The positive combination of a lower and an upper bound on `var` in which `var`
/// cancels.
pub open spec fn combined(lo: ConV, up: ConV, var: Seq<char>) -> Option<ConV> {
    match linear::coefficient(lo.lin.terms, var).negated() {
        None => None,
        Some(k) => match (
            linear::scaled(up.lin, k),
            linear::scaled(lo.lin, linear::coefficient(up.lin.terms, var)),
        ) {
            (Some(su), Some(sl)) => match linear::sum(su, sl) {
                Some(lin) => Some(ConV { lin, strict: lo.strict || up.strict }),
                None => None,
            },
            _ => None,
        },
    }
}

/// The combinations of one lower bound with every upper bound.
pub open spec fn combined_with(lo: ConV, ups: Seq<ConV>, var: Seq<char>) -> Option<Seq<ConV>>
    decreases ups.len(),
{
    if ups.len() == 0 {
        Some(Seq::empty())
    } else {
        match (combined_with(lo, ups.drop_last(), var), combined(lo, ups.last(), var)) {
            (Some(front), Some(c)) => Some(front.push(c)),
            _ => None,
        }
    }
}

/// The combinations of every lower bound with every upper bound.
pub open spec fn combined_all(los: Seq<ConV>, ups: Seq<ConV>, var: Seq<char>) -> Option<Seq<ConV>>
    decreases los.len(),
{
    if los.len() == 0 {
        Some(Seq::empty())
    } else {
        match (combined_all(los.drop_last(), ups, var), combined_with(los.last(), ups, var)) {
            (Some(front), Some(back)) => Some(front + back),
            _ => None,
        }
    }
}

/// What eliminating `var` leaves, where no more than `max` inequalities may result from
/// combining.
pub open spec fn eliminated(cs: Seq<ConV>, var: Seq<char>, max: nat) -> Result<Seq<ConV>, Limit> {
    let los = selected(cs, var, -1);
    let ups = selected(cs, var, 1);
    let rest = selected(cs, var, 0);
    if los.len() * ups.len() > 0 && rest.len() + los.len() * ups.len() > max {
        Err(Limit::Constraints)
    } else {
        match combined_all(los, ups, var) {
            Some(new) => Ok(rest + new),
            None => Err(Limit::Overflow),
        }
    }
}

/// The value of a form without the term of `var`, under a model.
pub open spec fn rest_value(k: Rat, t: Terms, var: Seq<char>, m: Terms) -> Option<Rat>
    decreases t.len(),
{
    if t.len() == 0 {
        Some(k)
    } else {
        match rest_value(k, t.drop_last(), var, m) {
            None => None,
            Some(total) => if t.last().0 == var {
                Some(total)
            } else {
                match names::lookup(m, t.last().0) {
                    None => None,
                    Some(x) => match t.last().1.times(x) {
                        None => None,
                        Some(p) => total.plus(p),
                    },
                }
            },
        }
    }
}

/// The bound that an inequality puts on `var` under a model of the other variables.
pub open spec fn bound_of(c: ConV, var: Seq<char>, m: Terms) -> Option<Rat> {
    match rest_value(c.lin.constant, c.lin.terms, var, m) {
        None => None,
        Some(rest) => match rest.negated() {
            None => None,
            Some(r) => r.over(linear::coefficient(c.lin.terms, var)),
        },
    }
}

/// The tighter of a bound found so far and a new one.
pub open spec fn tighter(best: Bound, b: Rat, strict: bool, upper: bool) -> Option<(Rat, bool)> {
    match best {
        None => Some((b, strict)),
        Some((b0, s0)) => if b == b0 {
            Some((b0, s0 || strict))
        } else {
            match b.ranked(b0) {
                None => None,
                Some(Rank::Same) => Some((b0, s0 || strict)),
                Some(Rank::Less) => if upper {
                    Some((b, strict))
                } else {
                    Some((b0, s0))
                },
                Some(Rank::More) => if upper {
                    Some((b0, s0))
                } else {
                    Some((b, strict))
                },
            }
        },
    }
}

/// The tightest lower and upper bound that inequalities put on `var`.
pub open spec fn bounds(cs: Seq<ConV>, var: Seq<char>, m: Terms) -> Option<(Bound, Bound)>
    decreases cs.len(),
{
    if cs.len() == 0 {
        Some((None, None))
    } else {
        match bounds(cs.drop_last(), var, m) {
            None => None,
            Some((lo, up)) => {
                let c = cs.last();
                let a = sign(linear::coefficient(c.lin.terms, var).n());
                if a == 0 {
                    Some((lo, up))
                } else {
                    match bound_of(c, var, m) {
                        None => None,
                        Some(b) => if a > 0 {
                            match tighter(up, b, c.strict, true) {
                                None => None,
                                Some(u) => Some((lo, Some(u))),
                            }
                        } else {
                            match tighter(lo, b, c.strict, false) {
                                None => None,
                                Some(l) => Some((Some(l), up)),
                            }
                        },
                    }
                }
            },
        }
    }
}

/// The smallest whole number above a lower bound.
pub open spec fn least_whole(lo: Bound) -> Option<int> {
    match lo {
        None => None,
        Some((b, strict)) => Some(
            if strict {
                b.n() / b.d() + 1
            } else {
                -((-b.n()) / b.d())
            },
        ),
    }
}

/// The largest whole number below an upper bound.
pub open spec fn greatest_whole(up: Bound) -> Option<int> {
    match up {
        None => None,
        Some((b, strict)) => Some(
            if strict {
                -((-b.n()) / b.d()) - 1
            } else {
                b.n() / b.d()
            },
        ),
    }
}

/// A whole number within the bounds, if there is one that can be represented.
pub open spec fn whole_within(lo: Bound, up: Bound) -> Option<Rat> {
    match (least_whole(lo), greatest_whole(up)) {
        (Some(l), Some(h)) => if num::fits(l) && num::fits(h) && l <= h {
            Some(Rat::of(l, 1))
        } else {
            None
        },
        (Some(l), None) => if num::fits(l) {
            Some(Rat::of(l, 1))
        } else {
            None
        },
        (None, Some(h)) => if num::fits(h) {
            Some(Rat::of(h, 1))
        } else {
            None
        },
        (None, None) => Some(Rat::of(0, 1)),
    }
}

/// A value within the bounds, preferably a whole number.
pub open spec fn picked(lo: Bound, up: Bound) -> Option<Rat> {
    match whole_within(lo, up) {
        Some(x) => Some(x),
        None => match (lo, up) {
            (Some((l, _)), Some((h, _))) => if l == h {
                Some(l)
            } else {
                match l.ranked(h) {
                    Some(Rank::Less) => l.halfway(h),
                    Some(Rank::Same) => Some(l),
                    _ => None,
                }
            },
            (Some((l, strict)), None) => if strict {
                l.plus(Rat::of(1, 1))
            } else {
                Some(l)
            },
            (None, Some((h, strict))) => if strict {
                h.minus(Rat::of(1, 1))
            } else {
                Some(h)
            },
            (None, None) => Some(Rat::of(0, 1)),
        },
    }
}

/// A value for `var` that fits the values of the other variables.
pub open spec fn choice(cs: Seq<ConV>, var: Seq<char>, m: Terms) -> Option<Rat> {
    match bounds(cs, var, m) {
        None => None,
        Some((lo, up)) => picked(lo, up),
    }
}

/// Are the constant parts on the right side of zero?
pub open spec fn constants_hold(cs: Seq<ConV>) -> bool {
    forall|i: int|
        0 <= i < cs.len() ==> meets((#[trigger] cs[i]).lin.constant.val(), cs[i].strict)
}

/// Fourier–Motzkin elimination of the variables in order, and the model that going
/// back through them gives.
pub open spec fn elimination(cs: Seq<ConV>, vars: Seq<Seq<char>>, max: nat) -> FeasibleV
    decreases vars.len(),
{
    if vars.len() == 0 {
        if constants_hold(cs) {
            FeasibleV::Feasible(Seq::empty())
        } else {
            FeasibleV::Infeasible
        }
    } else {
        match eliminated(cs, vars[0], max) {
            Err(l) => FeasibleV::Stop(l),
            Ok(next) => match elimination(next, vars.drop_first(), max) {
                FeasibleV::Feasible(m) => match choice(cs, vars[0], m) {
                    None => FeasibleV::Stop(Limit::Overflow),
                    Some(x) => FeasibleV::Feasible(seq![(vars[0], x)] + m),
                },
                other => other,
            },
        }
    }
}

/// The names of terms put into a sorted list.
pub open spec fn with_names(s: Seq<Seq<char>>, t: Terms) -> Seq<Seq<char>>
    decreases t.len(),
{
    if t.len() == 0 {
        s
    } else {
        text::sorted_with(with_names(s, t.drop_last()), t.last().0)
    }
}

/// The variables that occur in inequalities, sorted.
pub open spec fn listing(cs: Seq<ConV>) -> Seq<Seq<char>>
    decreases cs.len(),
{
    if cs.len() == 0 {
        Seq::empty()
    } else {
        with_names(listing(cs.drop_last()), cs.last().lin.terms)
    }
}

// ── Why elimination is right ────────────────────────────────────────────────────

/// The selection holds exactly the inequalities with that sign.
proof fn lemma_selected(cs: Seq<ConV>, var: Seq<char>, s: int)
    ensures
        forall|c: ConV| #[trigger]
            selected(cs, var, s).contains(c) <==> cs.contains(c) && sign(
                linear::coefficient(c.lin.terms, var).n(),
            ) == s,
    decreases cs.len(),
{
    if cs.len() > 0 {
        let init = cs.drop_last();
        let front = selected(init, var, s);
        lemma_selected(init, var, s);
        let all = selected(cs, var, s);
        assert forall|c: ConV| #[trigger] all.contains(c) <==> cs.contains(c) && sign(
            linear::coefficient(c.lin.terms, var).n(),
        ) == s by {
            if cs.contains(c) {
                let i = cs.index_of(c);
                if i < init.len() {
                    assert(init[i] == c);
                    assert(init.contains(c));
                }
            }
            if front.contains(c) {
                let i = front.index_of(c);
                assert(all[i] == c);
                assert(cs[init.index_of(c)] == c);
            }
            if c == cs.last() {
                assert(cs.contains(c));
                if sign(linear::coefficient(c.lin.terms, var).n()) == s {
                    assert(all[front.len() as int] == c);
                }
            }
            if all.contains(c) {
                let i = all.index_of(c);
                if i < front.len() {
                    assert(front[i] == c);
                    assert(front.contains(c));
                }
            }
        }
    }
}

proof fn lemma_scale_meets(k: real, x: real, strict: bool)
    requires
        k > 0 as real,
    ensures
        meets(x, strict) <==> meets(k * x, strict),
{
    assert(x < 0 as real ==> k * x < 0 as real) by (nonlinear_arith)
        requires
            k > 0 as real,
    ;
    assert(x > 0 as real ==> k * x > 0 as real) by (nonlinear_arith)
        requires
            k > 0 as real,
    ;
    assert(x == 0 as real ==> k * x == 0 as real) by (nonlinear_arith);
}

/// A combination follows from its parts and does not mention the variable.
proof fn lemma_combined(lo: ConV, up: ConV, var: Seq<char>, f: spec_fn(Seq<char>) -> real)
    requires
        linear::lin_wf(lo.lin),
        linear::lin_wf(up.lin),
        linear::coefficient(lo.lin.terms, var).n() < 0,
        linear::coefficient(up.lin.terms, var).n() > 0,
    ensures
        combined(lo, up, var) matches Some(c) ==> {
            &&& linear::lin_wf(c.lin)
            &&& c.strict == (lo.strict || up.strict)
            &&& !names::named(c.lin.terms, var)
            &&& forall|x: Seq<char>| #[trigger]
                names::named(c.lin.terms, x) ==> names::named(lo.lin.terms, x) || names::named(
                    up.lin.terms,
                    x,
                )
            &&& linear::value(c.lin, f) == (-linear::coefficient(lo.lin.terms, var).val())
                * linear::value(up.lin, f) + linear::coefficient(up.lin.terms, var).val()
                * linear::value(lo.lin, f)
            &&& con_holds(lo, f) && con_holds(up, f) ==> con_holds(c, f)
        },
{
    let a_lo = linear::coefficient(lo.lin.terms, var);
    let a_up = linear::coefficient(up.lin.terms, var);
    linear::lemma_with_value(lo.lin.terms, f, var, 0 as real);
    linear::lemma_with_value(up.lin.terms, f, var, 0 as real);
    a_lo.lemma_wf();
    a_up.lemma_wf();
    a_lo.lemma_negated();
    if let Some(c) = combined(lo, up, var) {
        let k = a_lo.negated()->0;
        let su = linear::scaled(up.lin, k)->0;
        let sl = linear::scaled(lo.lin, a_up)->0;
        linear::lemma_scaled(up.lin, k, f);
        linear::lemma_scaled(lo.lin, a_up, f);
        linear::lemma_sum(su, sl, f);
        linear::lemma_scaled_coefficient(up.lin, k, var);
        linear::lemma_scaled_coefficient(lo.lin, a_up, var);
        linear::lemma_sum_coefficient(su, sl, var);
        linear::lemma_with_value(c.lin.terms, f, var, 0 as real);
        linear::coefficient(c.lin.terms, var).lemma_wf();
        let (p, q) = (a_lo.val(), a_up.val());
        assert((-p) * q + q * p == 0 as real) by (nonlinear_arith);
        lemma_scale_meets(-p, linear::value(up.lin, f), up.strict);
        lemma_scale_meets(q, linear::value(lo.lin, f), lo.strict);
    }
}

proof fn lemma_combined_with_has(lo: ConV, ups: Seq<ConV>, var: Seq<char>, up: ConV)
    requires
        combined_with(lo, ups, var) is Some,
        ups.contains(up),
    ensures
        combined(lo, up, var) is Some,
        (combined_with(lo, ups, var)->0).contains(combined(lo, up, var)->0),
    decreases ups.len(),
{
    let r = combined_with(lo, ups, var)->0;
    let init = ups.drop_last();
    let front = combined_with(lo, init, var)->0;
    let i = ups.index_of(up);
    if i < init.len() {
        assert(init[i] == up);
        lemma_combined_with_has(lo, init, var, up);
        let c = combined(lo, up, var)->0;
        assert(r[front.index_of(c)] == c);
    } else {
        assert(r[front.len() as int] == combined(lo, up, var)->0);
    }
}

proof fn lemma_combined_with_from(lo: ConV, ups: Seq<ConV>, var: Seq<char>, c: ConV) -> (up: ConV)
    requires
        combined_with(lo, ups, var) matches Some(r) && r.contains(c),
    ensures
        ups.contains(up),
        combined(lo, up, var) == Some(c),
    decreases ups.len(),
{
    let r = combined_with(lo, ups, var)->0;
    let i = r.index_of(c);
    let init = ups.drop_last();
    let front = combined_with(lo, init, var)->0;
    assert(ups.len() > 0);
    if i < front.len() {
        assert(front[i] == c);
        let up = lemma_combined_with_from(lo, init, var, c);
        assert(ups[init.index_of(up)] == up);
        up
    } else {
        assert(ups[ups.len() - 1] == ups.last());
        ups.last()
    }
}

proof fn lemma_combined_all_has(
    los: Seq<ConV>,
    ups: Seq<ConV>,
    var: Seq<char>,
    lo: ConV,
    up: ConV,
)
    requires
        combined_all(los, ups, var) is Some,
        los.contains(lo),
        ups.contains(up),
    ensures
        combined(lo, up, var) is Some,
        (combined_all(los, ups, var)->0).contains(combined(lo, up, var)->0),
    decreases los.len(),
{
    let r = combined_all(los, ups, var)->0;
    let init = los.drop_last();
    let front = combined_all(init, ups, var)->0;
    let back = combined_with(los.last(), ups, var)->0;
    let i = los.index_of(lo);
    if i < init.len() {
        assert(init[i] == lo);
        lemma_combined_all_has(init, ups, var, lo, up);
        let c = combined(lo, up, var)->0;
        assert(r[front.index_of(c)] == c);
    } else {
        lemma_combined_with_has(lo, ups, var, up);
        let c = combined(lo, up, var)->0;
        assert(r[front.len() + back.index_of(c)] == c);
    }
}

proof fn lemma_combined_all_from(
    los: Seq<ConV>,
    ups: Seq<ConV>,
    var: Seq<char>,
    c: ConV,
) -> (p: (ConV, ConV))
    requires
        combined_all(los, ups, var) matches Some(r) && r.contains(c),
    ensures
        los.contains(p.0),
        ups.contains(p.1),
        combined(p.0, p.1, var) == Some(c),
    decreases los.len(),
{
    let r = combined_all(los, ups, var)->0;
    let i = r.index_of(c);
    assert(los.len() > 0);
    let init = los.drop_last();
    let front = combined_all(init, ups, var)->0;
    let back = combined_with(los.last(), ups, var)->0;
    if i < front.len() {
        assert(front[i] == c);
        let p = lemma_combined_all_from(init, ups, var, c);
        assert(los[init.index_of(p.0)] == p.0);
        p
    } else {
        assert(back[i - front.len()] == c);
        let up = lemma_combined_with_from(los.last(), ups, var, c);
        assert(los[los.len() - 1] == los.last());
        (los.last(), up)
    }
}

/// An inequality that an elimination step leaves is in normal form, follows from what
/// was there before, and mentions other variables of it only.
proof fn lemma_eliminated_from(
    cs: Seq<ConV>,
    var: Seq<char>,
    max: nat,
    c: ConV,
    f: spec_fn(Seq<char>) -> real,
)
    requires
        cons_wf(cs),
        eliminated(cs, var, max) matches Ok(next) && next.contains(c),
    ensures
        linear::lin_wf(c.lin),
        cons_hold(cs, f) ==> con_holds(c, f),
        !names::named(c.lin.terms, var),
        forall|x: Seq<char>| #[trigger] names::named(c.lin.terms, x) ==> occurs(cs, x),
{
    let next = eliminated(cs, var, max)->Ok_0;
    let los = selected(cs, var, -1);
    let ups = selected(cs, var, 1);
    let rest = selected(cs, var, 0);
    let new = combined_all(los, ups, var)->0;
    let i = next.index_of(c);
    lemma_selected(cs, var, -1);
    lemma_selected(cs, var, 1);
    lemma_selected(cs, var, 0);
    if i < rest.len() {
        assert(rest[i] == c);
        assert(rest.contains(c));
        let k = cs.index_of(c);
        assert(cs[k] == c);
        linear::lemma_with_value(c.lin.terms, f, var, 0 as real);
    } else {
        assert(new[i - rest.len()] == c);
        let (lo, up) = lemma_combined_all_from(los, ups, var, c);
        assert(cs.contains(lo) && cs.contains(up));
        let (j, k) = (cs.index_of(lo), cs.index_of(up));
        assert(cs[j] == lo && cs[k] == up);
        lemma_combined(lo, up, var, f);
        assert forall|x: Seq<char>| #[trigger] names::named(c.lin.terms, x) implies occurs(
            cs,
            x,
        ) by {
            if names::named(lo.lin.terms, x) {
                assert(names::named(cs[j].lin.terms, x));
            } else {
                assert(names::named(cs[k].lin.terms, x));
            }
        }
    }
}

/// Are the values of a model in normal form?
pub open spec fn model_wf(m: Terms) -> bool {
    names::ordered(m) && forall|i: int| 0 <= i < m.len() ==> (#[trigger] m[i]).1.wf()
}

/// A value that a model gives is in normal form.
pub proof fn lemma_lookup_wf(m: Terms, x: Seq<char>)
    requires
        model_wf(m),
    ensures
        names::lookup(m, x) matches Some(r) ==> r.wf(),
{
    if names::named(m, x) {
        let i = names::place(m, x);
        assert(m[i].0 == x);
        names::lemma_lookup_at(m, i);
    }
}

/// The value without `var` is the value where `var` is zero.
proof fn lemma_rest_value(k: Rat, t: Terms, var: Seq<char>, m: Terms)
    requires
        k.wf(),
        linear::terms_wf(t),
        model_wf(m),
    ensures
        rest_value(k, t, var, m) matches Some(r) ==> r.wf() && r.val() == k.val()
            + linear::value_terms(t, linear::with_value(assigned(m), var, 0 as real)),
    decreases t.len(),
{
    let f = linear::with_value(assigned(m), var, 0 as real);
    if t.len() > 0 && rest_value(k, t, var, m) is Some {
        let init = t.drop_last();
        assert(linear::terms_wf(init)) by {
            assert forall|i: int| 0 <= i < init.len() implies (#[trigger] init[i]).1.wf()
                && init[i].1.n() != 0 by {
                assert(init[i] == t[i]);
            }
        }
        lemma_rest_value(k, init, var, m);
        linear::lemma_value_last(t, f);
        let total = rest_value(k, init, var, m)->0;
        let (name, c) = t.last();
        assert(t[t.len() - 1].1.wf());
        if name == var {
            let a = c.val();
            assert(a * (0 as real) == 0 as real) by (nonlinear_arith);
        } else {
            lemma_lookup_wf(m, name);
            let x = names::lookup(m, name)->0;
            c.lemma_times(x);
            total.lemma_plus(c.times(x)->0);
        }
    }
}

/// A value is on the right side of a lower bound.
pub open spec fn above(x: real, lo: Bound) -> bool {
    match lo {
        None => true,
        Some((b, strict)) => meets(b.val() - x, strict),
    }
}

/// A value is on the right side of an upper bound.
pub open spec fn below(x: real, up: Bound) -> bool {
    match up {
        None => true,
        Some((b, strict)) => meets(x - b.val(), strict),
    }
}

/// An inequality in which `var` occurs is a bound on it.
proof fn lemma_bound(c: ConV, var: Seq<char>, m: Terms, x: real)
    requires
        linear::lin_wf(c.lin),
        model_wf(m),
        linear::coefficient(c.lin.terms, var).n() != 0,
        bound_of(c, var, m) is Some,
    ensures
        (bound_of(c, var, m)->0).wf(),
        linear::value(c.lin, linear::with_value(assigned(m), var, 0 as real)) == -((bound_of(
            c,
            var,
            m,
        )->0).val() * linear::coefficient(c.lin.terms, var).val()),
        linear::coefficient(c.lin.terms, var).n() > 0 ==> (con_holds(
            c,
            linear::with_value(assigned(m), var, x),
        ) <==> below(x, Some((bound_of(c, var, m)->0, c.strict)))),
        linear::coefficient(c.lin.terms, var).n() < 0 ==> (con_holds(
            c,
            linear::with_value(assigned(m), var, x),
        ) <==> above(x, Some((bound_of(c, var, m)->0, c.strict)))),
{
    let a = linear::coefficient(c.lin.terms, var);
    let rest = rest_value(c.lin.constant, c.lin.terms, var, m)->0;
    lemma_rest_value(c.lin.constant, c.lin.terms, var, m);
    linear::lemma_with_value(c.lin.terms, assigned(m), var, x);
    rest.lemma_negated();
    let r = rest.negated()->0;
    r.lemma_over(a);
    a.lemma_wf();
    let b = bound_of(c, var, m)->0;
    let (p, q) = (a.val(), b.val());
    assert(p * (x - q) == p * x - q * p) by (nonlinear_arith);
    assert((-p) * (q - x) == p * x - q * p) by (nonlinear_arith);
    if a.n() > 0 {
        lemma_scale_meets(p, x - q, c.strict);
    } else {
        lemma_scale_meets(-p, q - x, c.strict);
    }
}

/// The tighter of two bounds implies both and is one of them.
proof fn lemma_tighter(best: Bound, b: Rat, strict: bool, upper: bool, x: real)
    requires
        b.wf(),
        best matches Some((b0, _)) ==> b0.wf(),
    ensures
        tighter(best, b, strict, upper) matches Some(t) ==> {
            &&& t.0.wf()
            &&& upper && below(x, Some(t)) ==> below(x, best) && below(x, Some((b, strict)))
            &&& !upper && above(x, Some(t)) ==> above(x, best) && above(x, Some((b, strict)))
            &&& (t.0.val() == b.val() && t.1 == strict) || (best matches Some((b0, s0))
                && t.0.val() == b0.val() && t.1 == s0)
        },
{
}

/// Is the bound the one that some inequality puts on `var` from that side?
spec fn attained(cs: Seq<ConV>, var: Seq<char>, m: Terms, b: Bound, s: int) -> bool {
    b matches Some((r, strict)) ==> r.wf() && exists|i: int|
        0 <= i < cs.len() && sign(linear::coefficient((#[trigger] cs[i]).lin.terms, var).n()) == s
            && (bound_of(cs[i], var, m) matches Some(q) && q.val() == r.val()) && cs[i].strict
            == strict
}

proof fn lemma_attained_more(cs: Seq<ConV>, var: Seq<char>, m: Terms, b: Bound, s: int)
    requires
        cs.len() > 0,
        attained(cs.drop_last(), var, m, b, s),
    ensures
        attained(cs, var, m, b, s),
{
    if let Some((r, strict)) = b {
        let init = cs.drop_last();
        let i = choose|i: int|
            0 <= i < init.len() && sign(
                linear::coefficient((#[trigger] init[i]).lin.terms, var).n(),
            ) == s && (bound_of(init[i], var, m) matches Some(q) && q.val() == r.val())
                && init[i].strict == strict;
        assert(cs[i] == init[i]);
    }
}

/// Within the bounds every inequality on `var` is true, and the bounds are attained.
proof fn lemma_bounds(cs: Seq<ConV>, var: Seq<char>, m: Terms, x: real)
    requires
        cons_wf(cs),
        model_wf(m),
    ensures
        bounds(cs, var, m) matches Some((lo, up)) ==> {
            &&& attained(cs, var, m, lo, -1)
            &&& attained(cs, var, m, up, 1)
            &&& above(x, lo) && below(x, up) ==> forall|i: int|
                0 <= i < cs.len() && linear::coefficient((#[trigger] cs[i]).lin.terms, var).n() != 0
                    ==> con_holds(cs[i], linear::with_value(assigned(m), var, x))
        },
    decreases cs.len(),
{
    if cs.len() > 0 && bounds(cs, var, m) is Some {
        let init = cs.drop_last();
        let c = cs.last();
        assert(cons_wf(init)) by {
            assert forall|i: int| 0 <= i < init.len() implies linear::lin_wf(
                (#[trigger] init[i]).lin,
            ) by {
                assert(init[i] == cs[i]);
            }
        }
        assert(cs[cs.len() - 1] == c);
        lemma_bounds(init, var, m, x);
        let (lo0, up0) = bounds(init, var, m)->0;
        let (lo, up) = bounds(cs, var, m)->0;
        let a = linear::coefficient(c.lin.terms, var);
        lemma_attained_more(cs, var, m, lo0, -1);
        lemma_attained_more(cs, var, m, up0, 1);
        if a.n() != 0 {
            let b = bound_of(c, var, m)->0;
            lemma_bound(c, var, m, x);
            if a.n() > 0 {
                lemma_tighter(up0, b, c.strict, true, x);
                let t = up->0;
                if !(t.0.val() == b.val() && t.1 == c.strict) {
                    let old_best = up0->0;
                    let i = choose|i: int|
                        0 <= i < cs.len() && sign(
                            linear::coefficient((#[trigger] cs[i]).lin.terms, var).n(),
                        ) == 1 && (bound_of(cs[i], var, m) matches Some(q) && q.val()
                            == old_best.0.val()) && cs[i].strict == old_best.1;
                    assert(sign(linear::coefficient(cs[i].lin.terms, var).n()) == 1);
                }
            } else {
                lemma_tighter(lo0, b, c.strict, false, x);
                let t = lo->0;
                if !(t.0.val() == b.val() && t.1 == c.strict) {
                    let old_best = lo0->0;
                    let i = choose|i: int|
                        0 <= i < cs.len() && sign(
                            linear::coefficient((#[trigger] cs[i]).lin.terms, var).n(),
                        ) == -1 && (bound_of(cs[i], var, m) matches Some(q) && q.val()
                            == old_best.0.val()) && cs[i].strict == old_best.1;
                    assert(sign(linear::coefficient(cs[i].lin.terms, var).n()) == -1);
                }
            }
        }
        if above(x, lo) && below(x, up) {
            assert forall|i: int|
                0 <= i < cs.len() && linear::coefficient((#[trigger] cs[i]).lin.terms, var).n()
                    != 0 implies con_holds(cs[i], linear::with_value(assigned(m), var, x)) by {
                if i < init.len() {
                    assert(init[i] == cs[i]);
                }
            }
        }
    }
}

/// Bounds are numbers in normal form.
pub proof fn lemma_bounds_wf(cs: Seq<ConV>, var: Seq<char>, m: Terms)
    requires
        cons_wf(cs),
        model_wf(m),
    ensures
        bounds(cs, var, m) matches Some((lo, up)) ==> {
            &&& lo matches Some((l, _)) ==> l.wf()
            &&& up matches Some((h, _)) ==> h.wf()
        },
{
    lemma_bounds(cs, var, m, 0 as real);
}

/// Is the value within the bounds?
pub open spec fn within(x: real, lo: Bound, up: Bound) -> bool {
    above(x, lo) && below(x, up)
}

/// Do the bounds leave room between them?
pub open spec fn consistent(lo: Bound, up: Bound) -> bool {
    lo matches Some((l, ls)) ==> (up matches Some((h, hs)) ==> meets(
        l.val() - h.val(),
        ls || hs,
    ))
}

/// Is a whole number within the bounds?
pub open spec fn whole_between(lo: Bound, up: Bound) -> bool {
    exists|q: int| within(#[trigger] num::embed(q), lo, up)
}

/// Does a step of computing a value within the bounds overflow?
pub open spec fn out_of_range(lo: Bound, up: Bound) -> bool {
    match (lo, up) {
        (Some((l, _)), Some((h, _))) => l != h && (l.ranked(h) is None || l.halfway(h) is None),
        (Some((l, strict)), None) => strict && l.plus(Rat::of(1, 1)) is None,
        (None, Some((h, strict))) => strict && h.minus(Rat::of(1, 1)) is None,
        (None, None) => false,
    }
}

/// Is that a value to pick within the bounds? It is within them, and a whole number where
/// there is one; and there is a value unless a step overflows and no whole number in
/// range is within the bounds.
pub open spec fn well_picked(lo: Bound, up: Bound, r: Option<Rat>) -> bool {
    match r {
        Some(x) => {
            &&& x.wf()
            &&& within(x.val(), lo, up)
            &&& num::is_whole(x.val()) <==> whole_between(lo, up)
        },
        None => {
            &&& out_of_range(lo, up)
            &&& forall|q: int| num::fits(q) ==> !within(#[trigger] num::embed(q), lo, up)
        },
    }
}

/// A whole number is above a lower bound exactly if it is not less than the least that is.
pub proof fn lemma_least_whole(lo: Bound, q: int)
    requires
        lo matches Some((l, _)) && l.wf(),
    ensures
        above(num::embed(q), lo) <==> least_whole(lo)->0 <= q,
{
    let (l, ls) = lo->0;
    l.lemma_floor();
    l.lemma_ceil();
    let k = least_whole(lo)->0;
    if k <= q {
        assert((k as real) <= (q as real));
    } else {
        assert((q as real) <= ((k - 1) as real));
    }
}

/// A whole number is below an upper bound exactly if it is not more than the greatest that is.
pub proof fn lemma_greatest_whole(up: Bound, q: int)
    requires
        up matches Some((h, _)) && h.wf(),
    ensures
        below(num::embed(q), up) <==> q <= greatest_whole(up)->0,
{
    let (h, hs) = up->0;
    h.lemma_floor();
    h.lemma_ceil();
    let k = greatest_whole(up)->0;
    if q <= k {
        assert((q as real) <= (k as real));
    } else {
        assert(((k + 1) as real) <= (q as real));
    }
}

/// A step off a strict bound is one up or one down.
proof fn lemma_stepped(lo: Bound, up: Bound, x: Rat)
    requires
        lo matches Some((l, _)) ==> l.wf(),
        up matches Some((h, _)) ==> h.wf(),
    ensures
        lo matches Some((l, _)) ==> (l.plus(Rat::of(1, 1)) == Some(x) ==> x.val() == l.val()
            + 1 as real),
        up matches Some((h, _)) ==> (h.minus(Rat::of(1, 1)) == Some(x) ==> x.val() == h.val()
            - 1 as real),
{
    Rat::lemma_whole(1);
    if let Some((l, _)) = lo {
        l.lemma_plus(Rat::of(1, 1));
    }
    if let Some((h, _)) = up {
        Rat::of(1, 1).lemma_negated();
        if let Some(o) = Rat::of(1, 1).negated() {
            h.lemma_plus(o);
        }
    }
}

/// A picked value is within consistent bounds, and whole exactly where they hold a whole
/// number between them; and one is picked unless that overflows.
#[verifier::spinoff_prover]
pub proof fn lemma_picked(lo: Bound, up: Bound)
    requires
        lo matches Some((l, _)) ==> l.wf(),
        up matches Some((h, _)) ==> h.wf(),
        consistent(lo, up),
    ensures
        well_picked(lo, up, picked(lo, up)),
{
    lemma_picked_within(lo, up);
    if let Some((l, ls)) = lo {
        l.lemma_range();
        l.lemma_floor();
        l.lemma_ceil();
        lemma_least_whole(lo, least_whole(lo)->0);
        assert forall|q: int| above(#[trigger] num::embed(q), lo) implies least_whole(lo)->0
            <= q by {
            lemma_least_whole(lo, q);
        }
    }
    if let Some((h, hs)) = up {
        h.lemma_range();
        h.lemma_floor();
        h.lemma_ceil();
        lemma_greatest_whole(up, greatest_whole(up)->0);
        assert forall|q: int| below(#[trigger] num::embed(q), up) implies q
            <= greatest_whole(up)->0 by {
            lemma_greatest_whole(up, q);
        }
    }
    match whole_within(lo, up) {
        Some(x) => {
            let q = match (lo, up) {
                (Some(_), _) => least_whole(lo)->0,
                (None, Some(_)) => greatest_whole(up)->0,
                _ => 0,
            };
            Rat::lemma_whole(q);
            assert(x.val() == num::embed(q));
            assert(within(num::embed(q), lo, up));
        },
        None => {
            if let Some(x) = picked(lo, up) {
                x.lemma_range();
                lemma_stepped(lo, up, x);
                if num::is_whole(x.val()) {
                    let q = choose|q: int| x.val() == #[trigger] num::embed(q);
                    assert(within(num::embed(q), lo, up));
                }
            }
        },
    }
}

/// A picked value is within consistent bounds.
proof fn lemma_picked_within(lo: Bound, up: Bound)
    requires
        lo matches Some((l, _)) ==> l.wf(),
        up matches Some((h, _)) ==> h.wf(),
        consistent(lo, up),
    ensures
        picked(lo, up) matches Some(x) ==> x.wf() && within(x.val(), lo, up),
{
    Rat::lemma_whole(0);
    Rat::lemma_whole(1);
    if let Some((l, ls)) = lo {
        l.lemma_floor();
        l.lemma_ceil();
        let q = least_whole(lo)->0;
        if num::fits(q) {
            Rat::lemma_whole(q);
        }
        l.lemma_plus(Rat::of(1, 1));
        if let Some((h, hs)) = up {
            l.lemma_plus(h);
            if let Some(s) = l.plus(h) {
                Rat::lemma_whole(2);
                s.lemma_over(Rat::of(2, 1));
                if let Some(r) = l.halfway(h) {
                    let x = r.val();
                    assert(x * (2 as real) == x + x) by (nonlinear_arith);
                }
            }
        }
    }
    if let Some((h, hs)) = up {
        h.lemma_floor();
        h.lemma_ceil();
        let q = greatest_whole(up)->0;
        if num::fits(q) {
            Rat::lemma_whole(q);
        }
        Rat::of(1, 1).lemma_negated();
        if let Some(o) = Rat::of(1, 1).negated() {
            h.lemma_plus(o);
        }
    }
}

/// A chosen value extends a solution of what elimination leaves to one of what was there
/// before.
#[verifier::spinoff_prover]
proof fn lemma_choice(cs: Seq<ConV>, var: Seq<char>, max: nat, m: Terms)
    requires
        cons_wf(cs),
        model_wf(m),
        !names::named(m, var),
        eliminated(cs, var, max) matches Ok(next) && cons_hold(next, assigned(m)),
        choice(cs, var, m) is Some,
    ensures
        (choice(cs, var, m)->0).wf(),
        cons_hold(cs, linear::with_value(assigned(m), var, (choice(cs, var, m)->0).val())),
{
    let next = eliminated(cs, var, max)->Ok_0;
    let los = selected(cs, var, -1);
    let ups = selected(cs, var, 1);
    let rest = selected(cs, var, 0);
    let new = combined_all(los, ups, var)->0;
    let (lo, up) = bounds(cs, var, m)->0;
    let f = assigned(m);
    let x = choice(cs, var, m)->0;
    lemma_selected(cs, var, -1);
    lemma_selected(cs, var, 1);
    lemma_selected(cs, var, 0);
    lemma_bounds(cs, var, m, x.val());
    if lo is Some && up is Some {
        let (l, ls) = lo->0;
        let (h, hs) = up->0;
        let i = choose|i: int|
            0 <= i < cs.len() && sign(linear::coefficient((#[trigger] cs[i]).lin.terms, var).n())
                == -1 && (bound_of(cs[i], var, m) matches Some(q) && q.val() == l.val())
                && cs[i].strict == ls;
        let j = choose|j: int|
            0 <= j < cs.len() && sign(linear::coefficient((#[trigger] cs[j]).lin.terms, var).n())
                == 1 && (bound_of(cs[j], var, m) matches Some(q) && q.val() == h.val())
                && cs[j].strict == hs;
        let (cl, cu) = (cs[i], cs[j]);
        assert(cs.contains(cl) && cs.contains(cu));
        assert(los.contains(cl) && ups.contains(cu));
        lemma_combined_all_has(los, ups, var, cl, cu);
        let c = combined(cl, cu, var)->0;
        assert(next[rest.len() + new.index_of(c)] == c);
        assert(con_holds(c, f));
        lemma_combined(cl, cu, var, f);
        lemma_bound(cl, var, m, x.val());
        lemma_bound(cu, var, m, x.val());
        let f0 = linear::with_value(f, var, 0 as real);
        linear::lemma_value_agree(cl.lin.terms, f, f0);
        linear::lemma_value_agree(cu.lin.terms, f, f0);
        let a = linear::coefficient(cl.lin.terms, var).val();
        let b = linear::coefficient(cu.lin.terms, var).val();
        linear::lemma_with_value(cl.lin.terms, f, var, 0 as real);
        linear::lemma_with_value(cu.lin.terms, f, var, 0 as real);
        linear::coefficient(cl.lin.terms, var).lemma_wf();
        linear::coefficient(cu.lin.terms, var).lemma_wf();
        let (p, q) = (l.val(), h.val());
        assert((-a) * (-(q * b)) + b * (-(p * a)) == ((-a) * b) * (p - q)) by (nonlinear_arith);
        assert((-a) * b > 0 as real) by (nonlinear_arith)
            requires
                a < 0 as real,
                b > 0 as real,
        ;
        lemma_scale_meets((-a) * b, p - q, ls || hs);
    }
    lemma_picked_within(lo, up);
    let g = linear::with_value(f, var, x.val());
    assert forall|i: int| 0 <= i < cs.len() implies con_holds(#[trigger] cs[i], g) by {
        let c = cs[i];
        if linear::coefficient(c.lin.terms, var).n() == 0 {
            assert(cs.contains(c));
            assert(rest.contains(c));
            assert(next[rest.index_of(c)] == c);
            assert(con_holds(c, f));
            linear::lemma_with_value(c.lin.terms, f, var, 0 as real);
            linear::lemma_value_agree(c.lin.terms, f, g);
        }
    }
}

/// Elimination is right: a model it gives is a solution, with a value for every
/// variable, and where it finds none there is none.
pub proof fn lemma_elimination(cs: Seq<ConV>, vars: Seq<Seq<char>>, max: nat)
    requires
        cons_wf(cs),
        text::increasing(vars),
        forall|x: Seq<char>| #[trigger] occurs(cs, x) ==> vars.contains(x),
    ensures
        elimination(cs, vars, max) matches FeasibleV::Feasible(m) ==> {
            &&& model_wf(m)
            &&& cons_hold(cs, assigned(m))
            &&& forall|x: Seq<char>| #[trigger] names::named(m, x) <==> vars.contains(x)
        },
        elimination(cs, vars, max) is Infeasible ==> forall|f: spec_fn(Seq<char>) -> real|
            !#[trigger] cons_hold(cs, f),
    decreases vars.len(),
{
    if vars.len() == 0 {
        let m: Terms = Seq::empty();
        assert forall|i: int, f: spec_fn(Seq<char>) -> real|
            0 <= i < cs.len() implies #[trigger] linear::value((#[trigger] cs[i]).lin, f)
            == cs[i].lin.constant.val() by {
            if cs[i].lin.terms.len() > 0 {
                let x = cs[i].lin.terms[0].0;
                assert(names::named(cs[i].lin.terms, x));
                assert(occurs(cs, x));
                assert(vars.contains(x));
            }
        }
        assert forall|f: spec_fn(Seq<char>) -> real| #[trigger]
            cons_hold(cs, f) == constants_hold(cs) by {
            if cons_hold(cs, f) {
                assert forall|i: int| 0 <= i < cs.len() implies meets(
                    (#[trigger] cs[i]).lin.constant.val(),
                    cs[i].strict,
                ) by {
                    assert(con_holds(cs[i], f));
                    assert(linear::value(cs[i].lin, f) == cs[i].lin.constant.val());
                }
            }
            if constants_hold(cs) {
                assert forall|i: int| 0 <= i < cs.len() implies con_holds(#[trigger] cs[i], f) by {
                    assert(linear::value(cs[i].lin, f) == cs[i].lin.constant.val());
                }
            }
        }
    } else if eliminated(cs, vars[0], max) is Ok {
        let var = vars[0];
        let tail = vars.drop_first();
        let next = eliminated(cs, var, max)->Ok_0;
        let zero = |x: Seq<char>| 0 as real;
        assert forall|i: int| 0 <= i < next.len() implies linear::lin_wf(
            (#[trigger] next[i]).lin,
        ) by {
            assert(next.contains(next[i]));
            lemma_eliminated_from(cs, var, max, next[i], zero);
        }
        assert forall|i: int, j: int| 0 <= i < j < tail.len() implies text::text_less(
            tail[i],
            tail[j],
        ) by {
            assert(text::text_less(vars[i + 1], vars[j + 1]));
        }
        assert forall|x: Seq<char>| #[trigger] occurs(next, x) implies tail.contains(x) by {
            let i = choose|i: int|
                0 <= i < next.len() && names::named((#[trigger] next[i]).lin.terms, x);
            assert(next.contains(next[i]));
            lemma_eliminated_from(cs, var, max, next[i], zero);
            assert(occurs(cs, x));
            let k = vars.index_of(x);
            assert(k > 0);
            assert(tail[k - 1] == x);
        }
        lemma_elimination(next, tail, max);
        assert forall|f: spec_fn(Seq<char>) -> real| #[trigger] cons_hold(cs, f) implies cons_hold(
            next,
            f,
        ) by {
            assert forall|i: int| 0 <= i < next.len() implies con_holds(#[trigger] next[i], f) by {
                assert(next.contains(next[i]));
                lemma_eliminated_from(cs, var, max, next[i], f);
            }
        }
        if let FeasibleV::Feasible(m) = elimination(next, tail, max) {
            assert(!names::named(m, var)) by {
                if names::named(m, var) {
                    let k = tail.index_of(var);
                    assert(text::text_less(vars[0], vars[k + 1]));
                    text::lemma_text_irreflexive(var);
                }
            }
            if let Some(x) = choice(cs, var, m) {
                lemma_choice(cs, var, max, m);
                lemma_extended(cs, vars, m, x);
            }
        }
    }
}

/// A model with one more value in front.
proof fn lemma_extended(cs: Seq<ConV>, vars: Seq<Seq<char>>, m: Terms, x: Rat)
    requires
        vars.len() > 0,
        text::increasing(vars),
        model_wf(m),
        x.wf(),
        forall|y: Seq<char>| #[trigger] names::named(m, y) <==> vars.drop_first().contains(y),
        cons_hold(cs, linear::with_value(assigned(m), vars[0], x.val())),
    ensures
        model_wf(seq![(vars[0], x)] + m),
        cons_hold(cs, assigned(seq![(vars[0], x)] + m)),
        forall|y: Seq<char>| #[trigger]
            names::named(seq![(vars[0], x)] + m, y) <==> vars.contains(y),
        forall|k: int| 0 <= k < m.len() ==> text::text_less(vars[0], (#[trigger] m[k]).0),
{
    let var = vars[0];
    let tail = vars.drop_first();
    let mm = seq![(var, x)] + m;
    assert forall|k: int| 0 <= k < m.len() implies text::text_less(var, (#[trigger] m[k]).0) by {
        assert(names::named(m, m[k].0));
        let i = tail.index_of(m[k].0);
        assert(text::text_less(vars[0], vars[i + 1]));
    }
    assert forall|i: int, j: int| 0 <= i < j < mm.len() implies text::text_less(
        mm[i].0,
        mm[j].0,
    ) by {
        assert(mm[j] == m[j - 1]);
        if i > 0 {
            assert(mm[i] == m[i - 1]);
        }
    }
    assert forall|i: int| 0 <= i < mm.len() implies (#[trigger] mm[i]).1.wf() by {
        if i > 0 {
            assert(mm[i] == m[i - 1]);
        }
    }
    assert forall|y: Seq<char>| #[trigger] names::named(mm, y) <==> vars.contains(y) by {
        if names::named(mm, y) {
            let i = names::place(mm, y);
            if i == 0 {
                assert(vars[0] == y);
            } else {
                assert(m[i - 1].0 == y);
                assert(names::named(m, y));
                assert(vars[tail.index_of(y) + 1] == y);
            }
        }
        if vars.contains(y) {
            let i = vars.index_of(y);
            if i == 0 {
                assert(mm[0].0 == y);
            } else {
                assert(tail[i - 1] == y);
                assert(names::named(m, y));
                let k = names::place(m, y);
                assert(mm[k + 1].0 == y);
            }
        }
    }
    let f = assigned(mm);
    let g = linear::with_value(assigned(m), var, x.val());
    assert forall|i: int| 0 <= i < cs.len() implies con_holds(#[trigger] cs[i], f) by {
        assert forall|y: Seq<char>| #[trigger] names::named(cs[i].lin.terms, y) implies f(y)
            == g(y) by {
            lemma_extended_at(m, var, x, y);
        }
        linear::lemma_value_agree(cs[i].lin.terms, f, g);
        assert(con_holds(cs[i], g));
    }
}

/// What a model with one more value in front gives.
proof fn lemma_extended_at(m: Terms, var: Seq<char>, x: Rat, y: Seq<char>)
    requires
        names::ordered(m),
        names::ordered(seq![(var, x)] + m),
    ensures
        assigned(seq![(var, x)] + m)(y) == linear::with_value(assigned(m), var, x.val())(y),
{
    let mm = seq![(var, x)] + m;
    if y == var {
        assert(mm[0].0 == y);
        names::lemma_lookup_at(mm, 0);
    } else if names::named(m, y) {
        let k = names::place(m, y);
        assert(m[k].0 == y);
        assert(mm[k + 1] == m[k]);
        names::lemma_lookup_at(m, k);
        names::lemma_lookup_at(mm, k + 1);
    } else {
        assert(!names::named(mm, y)) by {
            if names::named(mm, y) {
                let i = names::place(mm, y);
                if i > 0 {
                    assert(m[i - 1].0 == y);
                }
            }
        }
    }
}

/// The list of the variables that occur is sorted and complete.
pub proof fn lemma_listing(cs: Seq<ConV>)
    ensures
        text::increasing(listing(cs)),
        forall|x: Seq<char>| #[trigger] occurs(cs, x) <==> listing(cs).contains(x),
    decreases cs.len(),
{
    if cs.len() > 0 {
        let init = cs.drop_last();
        lemma_listing(init);
        lemma_with_names(listing(init), cs.last().lin.terms);
        assert forall|x: Seq<char>| #[trigger] occurs(cs, x) <==> listing(cs).contains(x) by {
            if occurs(cs, x) {
                let i = choose|i: int|
                    0 <= i < cs.len() && names::named((#[trigger] cs[i]).lin.terms, x);
                if i < init.len() {
                    assert(names::named(init[i].lin.terms, x));
                    assert(occurs(init, x));
                }
            }
            if occurs(init, x) {
                let i = choose|i: int|
                    0 <= i < init.len() && names::named((#[trigger] init[i]).lin.terms, x);
                assert(names::named(cs[i].lin.terms, x));
            }
            if names::named(cs.last().lin.terms, x) {
                assert(names::named(cs[cs.len() - 1].lin.terms, x));
            }
        }
    }
}

proof fn lemma_with_names(s: Seq<Seq<char>>, t: Terms)
    requires
        text::increasing(s),
    ensures
        text::increasing(with_names(s, t)),
        forall|x: Seq<char>| #[trigger]
            with_names(s, t).contains(x) <==> s.contains(x) || names::named(t, x),
    decreases t.len(),
{
    if t.len() > 0 {
        let init = t.drop_last();
        lemma_with_names(s, init);
        text::lemma_sorted_with(with_names(s, init), t.last().0);
        assert forall|x: Seq<char>| #[trigger] with_names(s, t).contains(x) <==> s.contains(x)
            || names::named(t, x) by {
            if names::named(init, x) {
                let k = names::place(init, x);
                assert(init[k].0 == x);
                assert(t[k].0 == x);
            }
            if x == t.last().0 {
                assert(t[t.len() - 1].0 == x);
            }
            if names::named(t, x) && x != t.last().0 {
                let k = names::place(t, x);
                assert(t[k].0 == x);
                assert(init[k].0 == x);
            }
        }
    }
}

// ── Whole numbers ───────────────────────────────────────────────────────────────

/// Is the variable a whole number by its sort?
pub open spec fn is_int(env: Sorts, x: Seq<char>) -> bool {
    names::lookup(env, x) matches Some(VarTypeV::Int)
}

/// Are the variables that have to be whole numbers whole numbers?
pub open spec fn whole_where_due(env: Sorts, f: spec_fn(Seq<char>) -> real) -> bool {
    forall|x: Seq<char>| #[trigger] is_int(env, x) ==> num::is_whole(f(x))
}

/// The first variable from `i` on that has to be a whole number and is not.
pub open spec fn fractional(env: Sorts, m: Terms, i: int) -> Option<int>
    decreases m.len() - i,
{
    if i >= m.len() {
        None
    } else if is_int(env, m[i].0) && m[i].1.d() != 1 {
        Some(i)
    } else {
        fractional(env, m, i + 1)
    }
}

/// The inequality `x <= q`.
pub open spec fn at_most(x: Seq<char>, q: int) -> Option<ConV> {
    if num::fits(-q) {
        match linear::sum(linear::variable_form(x), linear::constant_form(Rat::of(-q, 1))) {
            Some(lin) => Some(ConV { lin, strict: false }),
            None => None,
        }
    } else {
        None
    }
}

/// The inequality `x >= q`.
pub open spec fn at_least(x: Seq<char>, q: int) -> Option<ConV> {
    match linear::opposite(linear::variable_form(x)) {
        Some(o) => match linear::sum(o, linear::constant_form(Rat::of(q, 1))) {
            Some(lin) => Some(ConV { lin, strict: false }),
            None => None,
        },
        None => None,
    }
}

/// How many countings are left.
pub open spec fn left(used: nat, max_used: nat) -> nat {
    if used > max_used {
        0
    } else {
        (max_used + 1 - used) as nat
    }
}

/// Elimination, and branching on a variable that came out fractional: first below its
/// value and, where nothing is there, above it. `used` counts the branchings so far.
pub open spec fn branching(
    env: Sorts,
    cs: Seq<ConV>,
    used: nat,
    max_cons: nat,
    max_used: nat,
) -> (FeasibleV, nat)
    decreases left(used, max_used),
{
    match elimination(cs, listing(cs), max_cons) {
        FeasibleV::Feasible(m) => match fractional(env, m, 0) {
            None => (FeasibleV::Feasible(m), used),
            Some(i) => if used >= max_used {
                (FeasibleV::Stop(Limit::Branches), used)
            } else {
                let (name, x) = m[i];
                match (at_most(name, x.n() / x.d()), at_least(name, -((-x.n()) / x.d()))) {
                    (Some(lower), Some(upper)) => {
                        let (r, u) = branching(
                            env,
                            cs.push(lower),
                            used + 1,
                            max_cons,
                            max_used,
                        );
                        if r is Infeasible && u > used {
                            branching(env, cs.push(upper), u, max_cons, max_used)
                        } else {
                            (r, u)
                        }
                    },
                    _ => (FeasibleV::Stop(Limit::Bound), used + 1),
                }
            },
        },
        other => (other, used),
    }
}

/// Elimination that does not stop early gives the same answer under every ceiling.
proof fn lemma_elimination_ceilings(cs: Seq<ConV>, vars: Seq<Seq<char>>, a: nat, b: nat)
    ensures
        elimination(cs, vars, a) is Stop || elimination(cs, vars, b) is Stop || elimination(
            cs,
            vars,
            a,
        ) == elimination(cs, vars, b),
    decreases vars.len(),
{
    if vars.len() > 0 {
        if let (Ok(next), Ok(_)) = (eliminated(cs, vars[0], a), eliminated(cs, vars[0], b)) {
            lemma_elimination_ceilings(next, vars.drop_first(), a, b);
        }
    }
}

/// Ceilings do not change answers: where the branch and bound stops early under neither
/// of two budgets, it gives the same answer after as many branchings.
pub proof fn lemma_branching_ceilings(
    env: Sorts,
    cs: Seq<ConV>,
    used: nat,
    cons1: nat,
    max1: nat,
    cons2: nat,
    max2: nat,
)
    ensures
        branching(env, cs, used, cons1, max1).0 is Stop || branching(
            env,
            cs,
            used,
            cons2,
            max2,
        ).0 is Stop || branching(env, cs, used, cons1, max1) == branching(
            env,
            cs,
            used,
            cons2,
            max2,
        ),
    decreases left(used, max1),
{
    lemma_elimination_ceilings(cs, listing(cs), cons1, cons2);
    if let FeasibleV::Feasible(m) = elimination(cs, listing(cs), cons1) {
        if let Some(i) = fractional(env, m, 0) {
            if used < max1 && used < max2 {
                let (name, x) = m[i];
                if let (Some(lower), Some(upper)) = (
                    at_most(name, x.n() / x.d()),
                    at_least(name, -((-x.n()) / x.d())),
                ) {
                    lemma_branching_ceilings(
                        env,
                        cs.push(lower),
                        used + 1,
                        cons1,
                        max1,
                        cons2,
                        max2,
                    );
                    let u = branching(env, cs.push(lower), used + 1, cons1, max1).1;
                    if u > used {
                        lemma_branching_ceilings(
                            env,
                            cs.push(upper),
                            u,
                            cons1,
                            max1,
                            cons2,
                            max2,
                        );
                    }
                }
            }
        }
    }
}

/// The first fractional variable is one, and there is none where every one that has to be a
/// whole number is.
pub proof fn lemma_fractional(env: Sorts, m: Terms, i: int)
    requires
        0 <= i <= m.len(),
    ensures
        fractional(env, m, i) matches Some(k) ==> i <= k < m.len() && is_int(env, m[k].0)
            && m[k].1.d() != 1,
        fractional(env, m, i) is None ==> forall|k: int|
            i <= k < m.len() && is_int(env, (#[trigger] m[k]).0) ==> m[k].1.d() == 1,
    decreases m.len() - i,
{
    if i < m.len() && !(is_int(env, m[i].0) && m[i].1.d() != 1) {
        lemma_fractional(env, m, i + 1);
    }
}

proof fn lemma_at_most(x: Seq<char>, q: int, f: spec_fn(Seq<char>) -> real)
    requires
        num::fits(-q),
    ensures
        at_most(x, q) matches Some(c) ==> linear::lin_wf(c.lin) && (con_holds(c, f) <==> f(x)
            <= q as real),
{
    let v = linear::variable_form(x);
    let k = linear::constant_form(Rat::of(-q, 1));
    lemma_variable_form(x, f);
    Rat::lemma_whole(-q);
    linear::lemma_sum(v, k, f);
}

proof fn lemma_at_least(x: Seq<char>, q: int, f: spec_fn(Seq<char>) -> real)
    requires
        num::fits(q),
    ensures
        at_least(x, q) matches Some(c) ==> linear::lin_wf(c.lin) && (con_holds(c, f) <==> f(x)
            >= q as real),
{
    let v = linear::variable_form(x);
    let k = linear::constant_form(Rat::of(q, 1));
    lemma_variable_form(x, f);
    Rat::lemma_whole(q);
    linear::lemma_opposite(v, f);
    if let Some(o) = linear::opposite(v) {
        linear::lemma_sum(o, k, f);
    }
}

/// The form of one variable is that variable.
pub proof fn lemma_variable_form(x: Seq<char>, f: spec_fn(Seq<char>) -> real)
    ensures
        linear::lin_wf(linear::variable_form(x)),
        linear::value(linear::variable_form(x), f) == f(x),
{
    Rat::lemma_whole(0);
    Rat::lemma_whole(1);
    reveal_with_fuel(linear::value_terms, 2);
    let u = f(x);
    assert((1 as real) * u == u) by (nonlinear_arith);
    assert(linear::variable_form(x).terms.drop_first().len() == 0);
}

/// Branch and bound is right: a model it gives is a solution in which the variables
/// that have to be whole numbers are, and where it finds none there is none.
pub proof fn lemma_branching(
    env: Sorts,
    cs: Seq<ConV>,
    used: nat,
    max_cons: nat,
    max_used: nat,
)
    requires
        cons_wf(cs),
    ensures
        branching(env, cs, used, max_cons, max_used).1 >= used,
        branching(env, cs, used, max_cons, max_used).0 matches FeasibleV::Feasible(m) ==> {
            &&& model_wf(m)
            &&& cons_hold(cs, assigned(m))
            &&& whole_where_due(env, assigned(m))
        },
        branching(env, cs, used, max_cons, max_used).0 is Infeasible ==> forall|
            f: spec_fn(Seq<char>) -> real,
        |
            whole_where_due(env, f) ==> !#[trigger] cons_hold(cs, f),
    decreases left(used, max_used),
{
    lemma_listing(cs);
    lemma_elimination(cs, listing(cs), max_cons);
    if let FeasibleV::Feasible(m) = elimination(cs, listing(cs), max_cons) {
        lemma_fractional(env, m, 0);
        match fractional(env, m, 0) {
            None => {
                let f = assigned(m);
                assert forall|x: Seq<char>| #[trigger] is_int(env, x) implies num::is_whole(
                    f(x),
                ) by {
                    if names::named(m, x) {
                        let k = names::place(m, x);
                        assert(m[k].0 == x);
                        names::lemma_lookup_at(m, k);
                        m[k].1.lemma_integer();
                    } else {
                        assert(f(x) == num::embed(0));
                    }
                }
            },
            Some(i) => {
                let (name, x) = m[i];
                assert(m[i].1.wf());
                let (q, r) = (x.n() / x.d(), -((-x.n()) / x.d()));
                if used < max_used && at_most(name, q) is Some && at_least(name, r) is Some {
                    x.lemma_wf();
                    x.lemma_integer();
                    x.lemma_floor();
                    x.lemma_ceil();
                    let lower = at_most(name, q)->0;
                    let upper = at_least(name, r)->0;
                    let zero = |y: Seq<char>| 0 as real;
                    lemma_rounding(x);
                    lemma_at_most(name, q, zero);
                    lemma_at_least(name, r, zero);
                    let below_cs = cs.push(lower);
                    let above_cs = cs.push(upper);
                    lemma_pushed_wf(cs, lower);
                    lemma_pushed_wf(cs, upper);
                    lemma_branching(env, below_cs, used + 1, max_cons, max_used);
                    let (r1, u) = branching(env, below_cs, used + 1, max_cons, max_used);
                    if let FeasibleV::Feasible(m1) = r1 {
                        lemma_pushed(cs, lower, assigned(m1));
                    }
                    if r1 is Infeasible {
                        lemma_branching(env, above_cs, u, max_cons, max_used);
                        let r2 = branching(env, above_cs, u, max_cons, max_used).0;
                        if let FeasibleV::Feasible(m2) = r2 {
                            lemma_pushed(cs, upper, assigned(m2));
                        }
                        if r2 is Infeasible {
                            assert forall|f: spec_fn(Seq<char>) -> real|
                                whole_where_due(env, f) implies !#[trigger] cons_hold(cs, f) by {
                                lemma_at_most(name, q, f);
                                lemma_at_least(name, r, f);
                                lemma_pushed(cs, lower, f);
                                lemma_pushed(cs, upper, f);
                                assert(is_int(env, name));
                                let k = choose|k: int| f(name) == #[trigger] num::embed(k);
                                assert(!cons_hold(below_cs, f));
                                assert(!cons_hold(above_cs, f));
                                if k <= q {
                                    assert(f(name) <= q as real);
                                } else {
                                    assert(k >= r);
                                    assert(f(name) >= r as real);
                                }
                            }
                        }
                    }
                }
            },
        }
    }
}

/// A model that branch and bound gives has values for variables that occur only.
pub proof fn lemma_branching_names(
    env: Sorts,
    cs: Seq<ConV>,
    used: nat,
    max_cons: nat,
    max_used: nat,
)
    requires
        cons_wf(cs),
    ensures
        branching(env, cs, used, max_cons, max_used).0 matches FeasibleV::Feasible(m) ==> forall|
            x: Seq<char>,
        | #[trigger]
            names::named(m, x) ==> occurs(cs, x),
    decreases left(used, max_used),
{
    lemma_listing(cs);
    lemma_elimination(cs, listing(cs), max_cons);
    if let FeasibleV::Feasible(m) = elimination(cs, listing(cs), max_cons) {
        lemma_fractional(env, m, 0);
        if let Some(i) = fractional(env, m, 0) {
            let (name, x) = m[i];
            assert(m[i].1.wf());
            assert(names::named(m, name));
            assert(occurs(cs, name));
            let (q, r) = (x.n() / x.d(), -((-x.n()) / x.d()));
            if used < max_used && at_most(name, q) is Some && at_least(name, r) is Some {
                let lower = at_most(name, q)->0;
                let upper = at_least(name, r)->0;
                lemma_rounding(x);
                lemma_bound_names(name, q);
                lemma_bound_names(name, r);
                lemma_pushed_wf(cs, lower);
                lemma_pushed_wf(cs, upper);
                lemma_pushed_names(cs, lower, name);
                lemma_pushed_names(cs, upper, name);
                lemma_branching_names(env, cs.push(lower), used + 1, max_cons, max_used);
                let (r1, u) = branching(env, cs.push(lower), used + 1, max_cons, max_used);
                if r1 is Infeasible && u > used {
                    lemma_branching_names(env, cs.push(upper), u, max_cons, max_used);
                }
            }
        }
    }
}

proof fn lemma_bound_names(name: Seq<char>, q: int)
    requires
        num::fits(q),
    ensures
        at_most(name, q) matches Some(c) ==> linear::lin_wf(c.lin) && (forall|x: Seq<char>|
         #[trigger]
            names::named(c.lin.terms, x) ==> x == name),
        at_least(name, q) matches Some(c) ==> linear::lin_wf(c.lin) && (forall|x: Seq<char>|
         #[trigger]
            names::named(c.lin.terms, x) ==> x == name),
{
    let f = |x: Seq<char>| 0 as real;
    let v = linear::variable_form(name);
    lemma_variable_form(name, f);
    Rat::lemma_whole(q);
    if num::fits(-q) {
        Rat::lemma_whole(-q);
        linear::lemma_sum(v, linear::constant_form(Rat::of(-q, 1)), f);
    }
    linear::lemma_opposite(v, f);
    if let Some(o) = linear::opposite(v) {
        linear::lemma_sum(o, linear::constant_form(Rat::of(q, 1)), f);
    }
}

proof fn lemma_pushed_names(cs: Seq<ConV>, c: ConV, name: Seq<char>)
    requires
        occurs(cs, name),
        forall|x: Seq<char>| #[trigger] names::named(c.lin.terms, x) ==> x == name,
    ensures
        forall|x: Seq<char>| #[trigger] occurs(cs.push(c), x) ==> occurs(cs, x),
{
    let d = cs.push(c);
    assert forall|x: Seq<char>| #[trigger] occurs(d, x) implies occurs(cs, x) by {
        let i = choose|i: int| 0 <= i < d.len() && names::named((#[trigger] d[i]).lin.terms, x);
        if i < cs.len() {
            assert(names::named(cs[i].lin.terms, x));
        }
    }
}

/// Rounding a fraction up gives the next number after rounding it down.
proof fn lemma_rounding(x: Rat)
    requires
        x.wf(),
    ensures
        -((-x.n()) / x.d()) <= x.n() / x.d() + 1,
        num::fits(-((-x.n()) / x.d())),
        num::fits(x.n() / x.d()),
{
    x.lemma_wf();
    x.lemma_floor();
    x.lemma_ceil();
    let (a, b) = (x.n(), x.d());
    let q = a / b;
    let r = -((-a) / b);
    assert((r - 1) as real <= x.val());
    assert((r - 1) < q + 1) by {
        if r - 1 >= q + 1 {
            assert((r - 1) as real >= (q + 1) as real);
        }
    }
    assert(a / b <= a && a / b >= 0 || a < 0) by (nonlinear_arith)
        requires
            b > 0,
    ;
    assert(a >= 0 || (a / b >= a && a / b < 0)) by (nonlinear_arith)
        requires
            b > 0,
    ;
    assert((-a) / b <= -a && (-a) / b >= 0 || a > 0) by (nonlinear_arith)
        requires
            b > 0,
    ;
    assert(a <= 0 || ((-a) / b >= -a && (-a) / b < 0)) by (nonlinear_arith)
        requires
            b > 0,
    ;
}

proof fn lemma_pushed_wf(cs: Seq<ConV>, c: ConV)
    requires
        cons_wf(cs),
        linear::lin_wf(c.lin),
    ensures
        cons_wf(cs.push(c)),
{
}

proof fn lemma_pushed(cs: Seq<ConV>, c: ConV, f: spec_fn(Seq<char>) -> real)
    ensures
        cons_hold(cs.push(c), f) <==> cons_hold(cs, f) && con_holds(c, f),
{
    let d = cs.push(c);
    assert(d[cs.len() as int] == c);
    if cons_hold(d, f) {
        assert(con_holds(d[cs.len() as int], f));
        assert forall|i: int| 0 <= i < cs.len() implies con_holds(#[trigger] cs[i], f) by {
            assert(con_holds(d[i], f));
        }
    }
}

} // verus!
