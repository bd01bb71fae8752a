//! The decision procedure.
//!
//! Two layers, in the shape of a small SMT solver:
//!
//! 1. **Boolean search.** The formula's atoms ([`Atom`]) are case-split one at a
//!    time. Every partial assignment is checked against the theory before the search
//!    goes deeper, so contradictory branches die early.
//! 2. **Theory.** Enum atoms are checked against the declared domain (a variable
//!    takes exactly one value). Numeric atoms become a conjunction of linear
//!    inequalities and are decided by **Fourier–Motzkin elimination** over the
//!    rationals, with **branch and bound** on top for `int`-sorted variables.
//!
//! # Why there is a third answer
//!
//! Completeness is not the same as termination in useful time. Every loop that can grow
//! counts against a [`Budget`], and exhausting one yields [`Outcome::Unknown`] — never a
//! guess. So does an overflow of the exact arithmetic.

use vstd::prelude::*;

use crate::clock::{Clock, TimeSpan};
use crate::decision;
use crate::decision::{AnswerV, Limits, OutcomeV, SearchV, ValueV};
use crate::linear;
use crate::linear::Terms;
use crate::logic;
use crate::logic::{Atom, AtomV, Expr, ExprV, Linear, VarType, VarTypeV, Variable, VariableV};
use crate::names;
use crate::names::NameMap;
use crate::num::Rat;
use crate::semantics::Sorts;
use crate::soundness;
use crate::text;
use crate::text::{cat3, cat4, count, holds_text, insert_sorted, natural, same, Rank};
use crate::theory;
use crate::theory::{Bound, ConV, FeasibleV, Limit};

verus! {

// ── Fourier–Motzkin ─────────────────────────────────────────────────────────────

/// A linear inequality: `lin < 0` when `strict`, otherwise `lin <= 0`.
#[derive(Debug)]
pub struct NumConstraint {
    pub lin: Linear,
    pub strict: bool,
}

impl View for NumConstraint {
    type V = ConV;

    open spec fn view(&self) -> ConV {
        ConV { lin: self.lin@, strict: self.strict }
    }
}

impl NumConstraint {
    fn copy(&self) -> (r: NumConstraint)
        ensures
            r@ == self@,
    {
        NumConstraint { lin: self.lin.clone(), strict: self.strict }
    }

    /// For a constraint with no variables left: does the constant satisfy it?
    fn constant_holds(&self) -> (b: bool)
        ensures
            b == theory::meets(self@.lin.constant.val(), self@.strict),
    {
        if self.strict {
            self.lin.offset().is_negative()
        } else {
            !self.lin.offset().is_positive()
        }
    }
}

/// Inequalities by their contents.
pub open spec fn con_views(v: Seq<NumConstraint>) -> Seq<ConV> {
    Seq::new(v.len(), |i: int| v[i]@)
}

/// What a decision procedure for inequalities answers.
#[derive(Debug)]
pub enum Feasible {
    /// These values satisfy them.
    Feasible(NameMap<Rat>),
    /// No values satisfy them.
    Infeasible,
    /// Something ran out first.
    Stop(Limit),
}

impl View for Feasible {
    type V = FeasibleV;

    open spec fn view(&self) -> FeasibleV {
        match self {
            Feasible::Feasible(m) => FeasibleV::Feasible(m@),
            Feasible::Infeasible => FeasibleV::Infeasible,
            Feasible::Stop(l) => FeasibleV::Stop(*l),
        }
    }
}

fn copy_constraints(v: &Vec<NumConstraint>) -> (r: Vec<NumConstraint>)
    ensures
        con_views(r@) == con_views(v@),
{
    let mut out: Vec<NumConstraint> = Vec::new();
    let mut i: usize = 0;
    while i < v.len()
        invariant
            i <= v@.len(),
            out@.len() == i,
            forall|k: int| 0 <= k < i ==> (#[trigger] out@[k])@ == v@[k]@,
        decreases v@.len() - i,
    {
        out.push(v[i].copy());
        i += 1;
    }
    assert(con_views(out@) =~= con_views(v@));
    out
}

/// The inequalities in which the coefficient of `var` is negative, zero and positive.
fn partition(cs: &Vec<NumConstraint>, var: &str) -> (r: (
    Vec<NumConstraint>,
    Vec<NumConstraint>,
    Vec<NumConstraint>,
))
    ensures
        con_views(r.0@) == theory::selected(con_views(cs@), var@, -1),
        con_views(r.1@) == theory::selected(con_views(cs@), var@, 0),
        con_views(r.2@) == theory::selected(con_views(cs@), var@, 1),
{
    let mut lower: Vec<NumConstraint> = Vec::new();
    let mut rest: Vec<NumConstraint> = Vec::new();
    let mut upper: Vec<NumConstraint> = Vec::new();
    let ghost all = con_views(cs@);
    let mut i: usize = 0;
    assert(con_views(lower@) =~= Seq::empty());
    while i < cs.len()
        invariant
            i <= cs@.len(),
            all == con_views(cs@),
            con_views(lower@) == theory::selected(all.take(i as int), var@, -1),
            con_views(rest@) == theory::selected(all.take(i as int), var@, 0),
            con_views(upper@) == theory::selected(all.take(i as int), var@, 1),
        decreases cs@.len() - i,
    {
        let ghost (l0, r0, u0) = (con_views(lower@), con_views(rest@), con_views(upper@));
        let ghost here = all[i as int];
        proof {
            assert(all.take(i + 1).drop_last() =~= all.take(i as int));
            assert(all.take(i + 1).last() == here);
        }
        let c = &cs[i];
        let n = c.lin.coeff(var).numer();
        if n == 0 {
            rest.push(c.copy());
            assert(con_views(rest@) =~= r0.push(here));
        } else if n > 0 {
            upper.push(c.copy());
            assert(con_views(upper@) =~= u0.push(here));
        } else {
            lower.push(c.copy());
            assert(con_views(lower@) =~= l0.push(here));
        }
        i += 1;
    }
    assert(all.take(i as int) =~= all);
    (lower, rest, upper)
}

/// Scale `up` by `-a_lo` (> 0) and `lo` by `a_up` (> 0) so that the two `var` terms
/// cancel. Both multipliers are positive, so the inequality directions survive.
fn combine(lo: &NumConstraint, up: &NumConstraint, var: &str) -> (r: Option<NumConstraint>)
    ensures
        r is Some <==> theory::combined(lo@, up@, var@) is Some,
        r matches Some(c) ==> theory::combined(lo@, up@, var@) == Some(c@),
{
    let neg_a_lo = lo.lin.coeff(var).neg()?;
    let su = up.lin.scale(neg_a_lo)?;
    let sl = lo.lin.scale(up.lin.coeff(var))?;
    let lin = su.add(&sl)?;
    Some(NumConstraint { lin, strict: lo.strict || up.strict })
}

/// Every combination of a lower with an upper bound, added to `out`. `false` where one
/// overflows.
fn combine_all(
    lower: &Vec<NumConstraint>,
    upper: &Vec<NumConstraint>,
    var: &str,
    out: &mut Vec<NumConstraint>,
) -> (ok: bool)
    ensures
        ok == theory::combined_all(con_views(lower@), con_views(upper@), var@) is Some,
        ok ==> con_views(final(out)@) == con_views(old(out)@) + theory::combined_all(
            con_views(lower@),
            con_views(upper@),
            var@,
        )->0,
{
    let ghost before = con_views(out@);
    let ghost los = con_views(lower@);
    let ghost ups = con_views(upper@);
    let mut i: usize = 0;
    assert(con_views(out@) =~= before + Seq::empty());
    while i < lower.len()
        invariant
            i <= lower@.len(),
            los == con_views(lower@),
            ups == con_views(upper@),
            theory::combined_all(los.take(i as int), ups, var@) is Some,
            con_views(out@) == before + theory::combined_all(los.take(i as int), ups, var@)->0,
        decreases lower@.len() - i,
    {
        let ghost lo = los[i as int];
        let ghost front = theory::combined_all(los.take(i as int), ups, var@)->0;
        proof {
            assert(los.take(i + 1).drop_last() =~= los.take(i as int));
            assert(los.take(i + 1).last() == lo);
        }
        let mut j: usize = 0;
        assert(con_views(out@) =~= before + front + Seq::empty());
        while j < upper.len()
            invariant
                i < lower@.len(),
                j <= upper@.len(),
                los == con_views(lower@),
                ups == con_views(upper@),
                lo == los[i as int],
                theory::combined_with(lo, ups.take(j as int), var@) is Some,
                con_views(out@) == before + front + theory::combined_with(
                    lo,
                    ups.take(j as int),
                    var@,
                )->0,
            decreases upper@.len() - j,
        {
            let ghost so_far = con_views(out@);
            let ghost part = theory::combined_with(lo, ups.take(j as int), var@)->0;
            proof {
                assert(ups.take(j + 1).drop_last() =~= ups.take(j as int));
                assert(ups.take(j + 1).last() == ups[j as int]);
            }
            match combine(&lower[i], &upper[j], var) {
                Some(c) => {
                    out.push(c);
                    assert(con_views(out@) =~= so_far.push(c@));
                    assert(before + front + part.push(c@) =~= so_far.push(c@));
                },
                None => {
                    proof {
                        lemma_with_none(lo, ups, var@, j + 1);
                        lemma_all_none(los, ups, var@, i + 1);
                    }
                    return false;
                },
            }
            j += 1;
        }
        proof {
            assert(ups.take(j as int) =~= ups);
            let back = theory::combined_with(lo, ups, var@)->0;
            assert(before + front + back =~= before + (front + back));
        }
        i += 1;
    }
    assert(los.take(i as int) =~= los);
    true
}

proof fn lemma_with_none(lo: ConV, ups: Seq<ConV>, var: Seq<char>, j: int)
    requires
        0 <= j <= ups.len(),
        theory::combined_with(lo, ups.take(j), var) is None,
    ensures
        theory::combined_with(lo, ups, var) is None,
    decreases ups.len() - j,
{
    if j < ups.len() {
        assert(ups.take(j + 1).drop_last() =~= ups.take(j));
        lemma_with_none(lo, ups, var, j + 1);
    } else {
        assert(ups.take(j) =~= ups);
    }
}

proof fn lemma_all_none(los: Seq<ConV>, ups: Seq<ConV>, var: Seq<char>, i: int)
    requires
        0 <= i <= los.len(),
        theory::combined_all(los.take(i), ups, var) is None,
    ensures
        theory::combined_all(los, ups, var) is None,
    decreases los.len() - i,
{
    if i < los.len() {
        assert(los.take(i + 1).drop_last() =~= los.take(i));
        lemma_all_none(los, ups, var, i + 1);
    } else {
        assert(los.take(i) =~= los);
    }
}

/// Eliminate one variable.
fn eliminate(cs: &Vec<NumConstraint>, var: &str, max: usize) -> (r: Result<
    Vec<NumConstraint>,
    Limit,
>)
    ensures
        match r {
            Ok(next) => theory::eliminated(con_views(cs@), var@, max as nat) == Ok::<
                Seq<ConV>,
                Limit,
            >(con_views(next@)),
            Err(l) => theory::eliminated(con_views(cs@), var@, max as nat) == Err::<
                Seq<ConV>,
                Limit,
            >(l),
        },
{
    let (lower, rest, upper) = partition(cs, var);
    let (a, b, c): (usize, usize, usize) = (lower.len(), upper.len(), rest.len());
    proof {
        let (x, y) = (a as int, b as int);
        assert(x > 0 && y > 0 ==> x * y > 0) by (nonlinear_arith);
        assert(x == 0 || y == 0 ==> x * y == 0) by (nonlinear_arith);
    }
    if a > 0 && b > 0 {
        match a.checked_mul(b) {
            None => {
                return Err(Limit::Constraints);
            },
            Some(pairs) => {
                if pairs > max || c > max - pairs {
                    return Err(Limit::Constraints);
                }
            },
        }
    }
    let mut next = rest;
    if combine_all(&lower, &upper, var, &mut next) {
        Ok(next)
    } else {
        Err(Limit::Overflow)
    }
}

/// Sum the linear form's constant and every term except `var`, using `model`.
fn eval_linear_without(lin: &Linear, var: &str, model: &NameMap<Rat>) -> (r: Option<Rat>)
    ensures
        r == theory::rest_value(lin@.constant, lin@.terms, var@, model@),
{
    let ghost t = lin@.terms;
    let ghost k = lin@.constant;
    let mut total = lin.offset();
    let terms = lin.terms();
    let n = terms.len();
    let mut i: usize = 0;
    while i < n
        invariant
            n == t.len(),
            i <= n,
            terms@ == t,
            t == lin@.terms,
            k == lin@.constant,
            theory::rest_value(k, t.take(i as int), var@, model@) == Some(total),
        decreases n - i,
    {
        proof {
            assert(t.take(i + 1).drop_last() =~= t.take(i as int));
            assert(t.take(i + 1).last() == t[i as int]);
        }
        if !same(terms.name_at(i).as_str(), var) {
            let value = match model.get(terms.name_at(i).as_str()) {
                Some(v) => *v,
                None => {
                    proof {
                        lemma_rest_none(k, t, var@, model@, i + 1);
                    }
                    return None;
                },
            };
            let product = match terms.value_at(i).mul(value) {
                Some(p) => p,
                None => {
                    proof {
                        lemma_rest_none(k, t, var@, model@, i + 1);
                    }
                    return None;
                },
            };
            total = match total.add(product) {
                Some(x) => x,
                None => {
                    proof {
                        lemma_rest_none(k, t, var@, model@, i + 1);
                    }
                    return None;
                },
            };
        }
        i += 1;
    }
    assert(t.take(i as int) =~= t);
    Some(total)
}

proof fn lemma_rest_none(k: Rat, t: Terms, var: Seq<char>, m: Terms, i: int)
    requires
        0 <= i <= t.len(),
        theory::rest_value(k, t.take(i), var, m) is None,
    ensures
        theory::rest_value(k, t, var, m) is None,
    decreases t.len() - i,
{
    if i < t.len() {
        assert(t.take(i + 1).drop_last() =~= t.take(i));
        lemma_rest_none(k, t, var, m, i + 1);
    } else {
        assert(t.take(i) =~= t);
    }
}

/// The tighter of a bound found so far and a new one.
fn tighten(best: Bound, b: Rat, strict: bool, upper: bool) -> (r: Option<(Rat, bool)>)
    ensures
        r == theory::tighter(best, b, strict, upper),
{
    match best {
        None => Some((b, strict)),
        Some((b0, s0)) => if b == b0 {
            Some((b0, s0 || strict))
        } else {
            match b.rank(b0)? {
                Rank::Same => Some((b0, s0 || strict)),
                Rank::Less => if upper {
                    Some((b, strict))
                } else {
                    Some((b0, s0))
                },
                Rank::More => if upper {
                    Some((b0, s0))
                } else {
                    Some((b, strict))
                },
            }
        },
    }
}

/// The bound that an inequality puts on `var`.
fn bound_on(c: &NumConstraint, var: &str, model: &NameMap<Rat>) -> (r: Option<Rat>)
    ensures
        r == theory::bound_of(c@, var@, model@),
{
    let rest = eval_linear_without(&c.lin, var, model)?;
    let r = rest.neg()?;
    r.div(c.lin.coeff(var))
}

/// The tightest bounds that inequalities put on `var`.
fn bounds_on(cs: &Vec<NumConstraint>, var: &str, model: &NameMap<Rat>) -> (r: Option<
    (Bound, Bound),
>)
    ensures
        r == theory::bounds(con_views(cs@), var@, model@),
{
    let ghost all = con_views(cs@);
    let mut lower: Bound = None;
    let mut upper: Bound = None;
    let mut i: usize = 0;
    while i < cs.len()
        invariant
            i <= cs@.len(),
            all == con_views(cs@),
            theory::bounds(all.take(i as int), var@, model@) == Some((lower, upper)),
        decreases cs@.len() - i,
    {
        proof {
            assert(all.take(i + 1).drop_last() =~= all.take(i as int));
            assert(all.take(i + 1).last() == all[i as int]);
            if theory::bounds(all.take(i + 1), var@, model@) is None {
                lemma_bounds_none(all, var@, model@, i + 1);
            }
        }
        let c = &cs[i];
        let n = c.lin.coeff(var).numer();
        if n != 0 {
            // Evaluate the rest of the form with the already-chosen values.
            let bound = bound_on(c, var, model)?;
            if n > 0 {
                // a*var + rest ⋈ 0  ⇒  var ⋈ -rest/a  (upper bound)
                upper = Some(tighten(upper, bound, c.strict, true)?);
            } else {
                // Dividing by a negative flips the direction: var ⋈ -rest/a (lower).
                lower = Some(tighten(lower, bound, c.strict, false)?);
            }
        }
        i += 1;
    }
    assert(all.take(i as int) =~= all);
    Some((lower, upper))
}

proof fn lemma_bounds_none(cs: Seq<ConV>, var: Seq<char>, m: Terms, i: int)
    requires
        0 <= i <= cs.len(),
        theory::bounds(cs.take(i), var, m) is None,
    ensures
        theory::bounds(cs, var, m) is None,
    decreases cs.len() - i,
{
    if i < cs.len() {
        assert(cs.take(i + 1).drop_last() =~= cs.take(i));
        lemma_bounds_none(cs, var, m, i + 1);
    } else {
        assert(cs.take(i) =~= cs);
    }
}

/// A whole number within the bounds.
fn integer_in_range(lower: Bound, upper: Bound) -> (r: Option<Rat>)
    ensures
        r == theory::whole_within(lower, upper),
{
    let lo: Option<i128> = match lower {
        None => None,
        Some((b, strict)) => {
            if strict {
                Some(b.floor()?.checked_add(1)?)
            } else {
                Some(b.ceil()?)
            }
        },
    };
    let hi: Option<i128> = match upper {
        None => None,
        Some((b, strict)) => {
            if strict {
                Some(b.ceil()?.checked_sub(1)?)
            } else {
                Some(b.floor()?)
            }
        },
    };
    match (lo, hi) {
        (Some(l), Some(h)) => {
            if l <= h {
                Some(Rat::integral(l))
            } else {
                None
            }
        },
        (Some(l), None) => Some(Rat::integral(l)),
        (None, Some(h)) => Some(Rat::integral(h)),
        (None, None) => Some(Rat::zero()),
    }
}

/// Choose a witness value inside `(lower, upper)`, preferring a whole number so the
/// integer branch-and-bound above almost never has to run.
pub fn pick_value(lower: Bound, upper: Bound) -> (r: Option<Rat>)
    ensures
        r == theory::picked(lower, upper),
        theory::consistent(lower, upper) ==> theory::well_picked(lower, upper, r),
{
    proof {
        if let Some((b, _)) = lower {
            use_type_invariant(b);
        }
        if let Some((b, _)) = upper {
            use_type_invariant(b);
        }
        if theory::consistent(lower, upper) {
            theory::lemma_picked(lower, upper);
        }
    }
    if let Some(v) = integer_in_range(lower, upper) {
        return Some(v);
    }
    match (lower, upper) {
        (Some((lo, _)), Some((hi, _))) => if lo == hi {
            Some(lo)
        } else {
            match lo.rank(hi) {
                Some(Rank::Less) => lo.midpoint(hi),
                Some(Rank::Same) => Some(lo),
                _ => None,
            }
        },
        (Some((lo, strict)), None) => {
            if strict {
                lo.add(Rat::one())
            } else {
                Some(lo)
            }
        },
        (None, Some((hi, strict))) => {
            if strict {
                hi.sub(Rat::one())
            } else {
                Some(hi)
            }
        },
        (None, None) => Some(Rat::zero()),
    }
}

/// Fourier–Motzkin elimination of the variables from `idx` on, with model
/// reconstruction: what eliminating the rest gives is extended by a value for the
/// variable at `idx`.
fn eliminate_from(
    cs: &Vec<NumConstraint>,
    vars: &Vec<String>,
    idx: usize,
    max: usize,
    clock: &Clock,
) -> (r: Feasible)
    requires
        idx <= vars@.len(),
        text::increasing(text::texts(vars@)),
    ensures
        r@ == theory::elimination(
            con_views(cs@),
            text::texts(vars@).skip(idx as int),
            max as nat,
        ) || (clock.timed() && r@ == FeasibleV::Stop(Limit::Time)),
    decreases vars@.len() - idx,
{
    let ghost all = con_views(cs@);
    let ghost rest = text::texts(vars@).skip(idx as int);
    if idx == vars.len() {
        // Every variable is gone: what remains must hold on the constants alone.
        let mut i: usize = 0;
        while i < cs.len()
            invariant
                i <= cs@.len(),
                all == con_views(cs@),
                rest == text::texts(vars@).skip(idx as int),
                rest.len() == 0,
                forall|k: int|
                    0 <= k < i ==> theory::meets(
                        (#[trigger] all[k]).lin.constant.val(),
                        all[k].strict,
                    ),
            decreases cs@.len() - i,
        {
            assert(all[i as int] == cs@[i as int]@);
            if !cs[i].constant_holds() {
                return Feasible::Infeasible;
            }
            i += 1;
        }
        return Feasible::Feasible(NameMap::new());
    }
    if clock.late() {
        return Feasible::Stop(Limit::Time);
    }
    let var = vars[idx].as_str();
    proof {
        assert(rest[0] == var@);
        assert(rest.drop_first() =~= text::texts(vars@).skip(idx + 1));
    }
    let next = match eliminate(cs, var, max) {
        Ok(next) => next,
        Err(l) => {
            return Feasible::Stop(l);
        },
    };
    match eliminate_from(&next, vars, idx + 1, max, clock) {
        Feasible::Feasible(mut model) => {
            // Back-substitute: bound the variable by the values of the later ones.
            let (lower, upper) = match bounds_on(cs, var, &model) {
                Some(b) => b,
                None => {
                    return Feasible::Stop(Limit::Overflow);
                },
            };
            match pick_value(lower, upper) {
                Some(value) => {
                    proof {
                        lemma_model_names(
                            con_views(next@),
                            rest.drop_first(),
                            max as nat,
                        );
                        let names = text::texts(vars@);
                        assert forall|k: int| 0 <= k < model@.len() implies text::text_less(
                            var@,
                            (#[trigger] model@[k]).0,
                        ) by {
                            assert(text::text_less(names[idx as int], names[idx + 1 + k]));
                        }
                    }
                    model.push_front(vars[idx].clone(), value);
                    Feasible::Feasible(model)
                },
                None => Feasible::Stop(Limit::Overflow),
            }
        },
        other => other,
    }
}

/// A model of elimination lists the variables in order.
proof fn lemma_model_names(cs: Seq<ConV>, vars: Seq<Seq<char>>, max: nat)
    ensures
        theory::elimination(cs, vars, max) matches FeasibleV::Feasible(m) ==> m.len() == vars.len()
            && (forall|k: int| 0 <= k < m.len() ==> (#[trigger] m[k]).0 == vars[k]),
    decreases vars.len(),
{
    if vars.len() > 0 {
        if let Ok(next) = theory::eliminated(cs, vars[0], max) {
            lemma_model_names(next, vars.drop_first(), max);
        }
    }
}

/// The variables that occur, sorted.
fn occurring(cs: &Vec<NumConstraint>) -> (r: Vec<String>)
    ensures
        text::texts(r@) == theory::listing(con_views(cs@)),
        text::increasing(text::texts(r@)),
        theory::cons_wf(con_views(cs@)),
{
    let ghost all = con_views(cs@);
    let mut out: Vec<String> = Vec::new();
    let mut i: usize = 0;
    assert(text::texts(out@) =~= Seq::empty());
    while i < cs.len()
        invariant
            i <= cs@.len(),
            all == con_views(cs@),
            text::texts(out@) == theory::listing(all.take(i as int)),
            forall|k: int| 0 <= k < i ==> linear::lin_wf((#[trigger] all[k]).lin),
        decreases cs@.len() - i,
    {
        proof {
            assert(all.take(i + 1).drop_last() =~= all.take(i as int));
            assert(all.take(i + 1).last() == all[i as int]);
        }
        let ghost before = text::texts(out@);
        let terms = cs[i].lin.terms();
        let ghost t = terms@;
        let n = terms.len();
        let mut j: usize = 0;
        while j < n
            invariant
                j <= n,
                n == t.len(),
                terms@ == t,
                text::texts(out@) == theory::with_names(before, t.take(j as int)),
            decreases n - j,
        {
            proof {
                assert(t.take(j + 1).drop_last() =~= t.take(j as int));
                assert(t.take(j + 1).last() == t[j as int]);
            }
            insert_sorted(&mut out, terms.name_at(j).as_str());
            j += 1;
        }
        assert(t.take(j as int) =~= t);
        i += 1;
    }
    proof {
        assert(all.take(i as int) =~= all);
        theory::lemma_listing(all);
    }
    out
}

/// Fourier–Motzkin elimination of all variables, with model reconstruction.
///
/// A model has a value for exactly the variables that occur, and it satisfies the
/// constraints; `Infeasible` means that no rational values do, nor any others.
pub fn fourier_motzkin(cs: &Vec<NumConstraint>, max: usize, clock: &Clock) -> (r: Feasible)
    ensures
        r@ == theory::elimination(
            con_views(cs@),
            theory::listing(con_views(cs@)),
            max as nat,
        ) || (clock.timed() && r@ == FeasibleV::Stop(Limit::Time)),
        r@ matches FeasibleV::Feasible(m) ==> {
            &&& theory::model_wf(m)
            &&& theory::cons_hold(con_views(cs@), theory::assigned(m))
            &&& forall|x: Seq<char>| #[trigger]
                names::named(m, x) <==> theory::occurs(con_views(cs@), x)
        },
        r@ is Infeasible ==> forall|f: spec_fn(Seq<char>) -> real|
            !#[trigger] theory::cons_hold(con_views(cs@), f),
{
    let vars = occurring(cs);
    proof {
        let all = con_views(cs@);
        assert(text::texts(vars@).skip(0) =~= text::texts(vars@));
        theory::lemma_listing(all);
        theory::lemma_elimination(all, theory::listing(all), max as nat);
    }
    eliminate_from(cs, &vars, 0, max, clock)
}

// ── Declared variables ──────────────────────────────────────────────────────────

/// The declared variables a formula is interpreted against.
#[derive(Debug)]
pub struct Env {
    pub types: NameMap<VarType>,
}

impl View for Env {
    type V = Sorts;

    open spec fn view(&self) -> Sorts {
        self.types@
    }
}

/// Declared variables by their contents.
pub open spec fn variables(v: Seq<Variable>) -> Seq<VariableV> {
    Seq::new(v.len(), |i: int| v[i]@)
}

/// The sort with which a name is declared; the last declaration counts.
pub open spec fn declared(v: Seq<VariableV>, name: Seq<char>) -> Option<VarTypeV>
    decreases v.len(),
{
    if v.len() == 0 {
        None
    } else if v.last().name == name {
        Some(v.last().ty)
    } else {
        declared(v.drop_last(), name)
    }
}

impl Default for Env {
    fn default() -> (r: Env)
        ensures
            r@ == Seq::<(Seq<char>, VarTypeV)>::empty(),
    {
        Env { types: NameMap::new() }
    }
}

impl Env {
    /// The sorts of declared variables.
    pub fn from_variables(vars: &[Variable]) -> (r: Env)
        ensures
            names::ordered(r@),
            forall|x: Seq<char>| #[trigger]
                names::lookup(r@, x) == declared(variables(vars@), x),
    {
        let ghost all = variables(vars@);
        let mut types: NameMap<VarType> = NameMap::new();
        let mut i: usize = 0;
        let n = vars.len();
        assert forall|x: Seq<char>| #[trigger] names::lookup(types@, x) == declared(
            all.take(0),
            x,
        ) by {}
        while i < n
            invariant
                n == vars@.len(),
                i <= n,
                all == variables(vars@),
                names::ordered(types@),
                forall|x: Seq<char>| #[trigger]
                    names::lookup(types@, x) == declared(all.take(i as int), x),
            decreases n - i,
        {
            proof {
                assert(all.take(i + 1).drop_last() =~= all.take(i as int));
                assert(all.take(i + 1).last() == all[i as int]);
            }
            types.insert(vars[i].name.clone(), vars[i].ty.clone());
            i += 1;
        }
        assert(all.take(n as int) =~= all);
        Env { types }
    }

    /// The sort of a variable.
    pub fn get(&self, name: &str) -> (r: Option<&VarType>)
        ensures
            r is Some <==> names::lookup(self@, name@) is Some,
            r matches Some(t) ==> names::lookup(self@, name@) == Some(t@),
    {
        self.types.get(name)
    }

    /// Is the variable a whole number by its sort?
    pub fn is_int(&self, name: &str) -> (b: bool)
        ensures
            b == theory::is_int(self@, name@),
    {
        match self.types.get(name) {
            Some(t) => match t {
                VarType::Int => true,
                _ => false,
            },
            None => false,
        }
    }
}

/// Resource ceilings. Every one of them is checked *inside* the loop it bounds.
#[derive(Clone, Copy, Debug)]
pub struct Budget {
    /// Distinct atoms the formula may contain before the search is refused outright.
    pub max_atoms: usize,
    /// Nodes the boolean case-split may visit.
    pub max_branch_nodes: usize,
    /// Constraints Fourier–Motzkin may hold at any elimination level.
    pub max_fm_constraints: usize,
    /// Integer branch-and-bound nodes.
    pub max_int_branches: usize,
    /// Wall-clock ceiling for one `solve` call.
    pub time_limit: TimeSpan,
}

impl Budget {
    /// The ceilings as numbers.
    pub open spec fn limits(&self) -> Limits {
        Limits {
            atoms: self.max_atoms as nat,
            nodes: self.max_branch_nodes as nat,
            cons: self.max_fm_constraints as nat,
            branches: self.max_int_branches as nat,
            millis: (self.time_limit.nanos / 1_000_000) as nat,
        }
    }
}

impl Default for Budget {
    fn default() -> (r: Budget)
        ensures
            r.max_atoms == 64,
            r.max_branch_nodes == 20_000,
            r.max_fm_constraints == 4_000,
            r.max_int_branches == 256,
            r.time_limit.nanos == 5_000_000_000,
    {
        Budget {
            max_atoms: 64,
            max_branch_nodes: 20_000,
            max_fm_constraints: 4_000,
            max_int_branches: 256,
            time_limit: TimeSpan::from_secs(5),
        }
    }
}

// ── Branch and bound ────────────────────────────────────────────────────────────

/// The first `int` variable that came out fractional.
fn find_fractional(env: &Env, model: &NameMap<Rat>) -> (r: Option<usize>)
    ensures
        match r {
            Some(i) => theory::fractional(env@, model@, 0) == Some(i as int) && i < model@.len(),
            None => theory::fractional(env@, model@, 0) is None,
        },
{
    let n = model.len();
    let mut i: usize = 0;
    while i < n
        invariant
            n == model@.len(),
            i <= n,
            theory::fractional(env@, model@, 0) == theory::fractional(env@, model@, i as int),
        decreases n - i,
    {
        if env.is_int(model.name_at(i).as_str()) && !model.value_at(i).is_integer() {
            return Some(i);
        }
        i += 1;
    }
    None
}

/// `x <= q` as `x - q <= 0`.
fn at_most(name: &str, q: i128) -> (r: Option<NumConstraint>)
    ensures
        r is Some <==> theory::at_most(name@, q as int) is Some,
        r matches Some(c) ==> theory::at_most(name@, q as int) == Some(c@),
{
    if q == i128::MIN {
        return None;
    }
    let lin = Linear::var(name).add(&Linear::constant(Rat::integral(-q)))?;
    Some(NumConstraint { lin, strict: false })
}

/// `x >= q` as `q - x <= 0`.
fn at_least(name: &str, q: i128) -> (r: Option<NumConstraint>)
    ensures
        r is Some <==> theory::at_least(name@, q as int) is Some,
        r matches Some(c) ==> theory::at_least(name@, q as int) == Some(c@),
{
    let neg_var = Linear::var(name).neg()?;
    let lin = neg_var.add(&Linear::constant(Rat::integral(q)))?;
    Some(NumConstraint { lin, strict: false })
}

/// Rational feasibility by Fourier–Motzkin, then integrality by branch and bound.
fn feasible_linear(
    env: &Env,
    cs: &Vec<NumConstraint>,
    used: &mut usize,
    budget: &Budget,
    clock: &Clock,
) -> (r: Feasible)
    ensures
        (r@, *final(used) as nat) == theory::branching(
            env@,
            con_views(cs@),
            *old(used) as nat,
            budget.max_fm_constraints as nat,
            budget.max_int_branches as nat,
        ) || (clock.timed() && r@ == FeasibleV::Stop(Limit::Time)),
    decreases theory::left(*old(used) as nat, budget.max_int_branches as nat),
{
    match fourier_motzkin(cs, budget.max_fm_constraints, clock) {
        Feasible::Feasible(model) => {
            let i = match find_fractional(env, &model) {
                Some(i) => i,
                None => {
                    return Feasible::Feasible(model);
                },
            };
            if clock.late() {
                return Feasible::Stop(Limit::Time);
            }
            if *used >= budget.max_int_branches {
                return Feasible::Stop(Limit::Branches);
            }
            *used = *used + 1;
            let start = *used;
            let value = *model.value_at(i);
            let name = model.name_at(i).as_str();
            let (floor, ceil) = match (value.floor(), value.ceil()) {
                (Some(f), Some(c)) => (f, c),
                _ => {
                    return Feasible::Stop(Limit::Bound);
                },
            };
            let (lower, upper) = match (at_most(name, floor), at_least(name, ceil)) {
                (Some(l), Some(u)) => (l, u),
                _ => {
                    return Feasible::Stop(Limit::Bound);
                },
            };
            let ghost all = con_views(cs@);
            // Branch 1: x <= floor(v).
            let mut below = copy_constraints(cs);
            below.push(lower);
            assert(con_views(below@) =~= all.push(lower@));
            match feasible_linear(env, &below, used, budget, clock) {
                Feasible::Infeasible => {
                    if *used >= start {
                        // Branch 2: x >= ceil(v).
                        let mut above = copy_constraints(cs);
                        above.push(upper);
                        assert(con_views(above@) =~= all.push(upper@));
                        feasible_linear(env, &above, used, budget, clock)
                    } else {
                        Feasible::Infeasible
                    }
                },
                other => other,
            }
        },
        other => other,
    }
}

// ── Boolean search ──────────────────────────────────────────────────────────────

/// The truth value of an atom under the assignment of the first atoms.
fn assigned_leaf(e: &Expr, atoms: &Vec<Atom>, asg: &Vec<bool>) -> (r: Option<bool>)
    requires
        logic::leaf(e@) is Some,
        asg@.len() <= atoms@.len(),
        logic::atom_views(atoms@).no_duplicates(),
    ensures
        r == decision::assigned_value(logic::atom_views(atoms@), asg@, logic::leaf(e@)->0),
{
    let ghost all = logic::atom_views(atoms@);
    let ghost a = logic::leaf(e@)->0;
    let mut i: usize = 0;
    while i < asg.len()
        invariant
            i <= asg@.len(),
            asg@.len() <= atoms@.len(),
            all == logic::atom_views(atoms@),
            all.no_duplicates(),
            logic::leaf(e@) == Some(a),
            forall|k: int| 0 <= k < i ==> all[k] != a,
        decreases asg@.len() - i,
    {
        assert(all[i as int] == atoms@[i as int]@);
        if e.is_atom(&atoms[i]) {
            assert(all.contains(a));
            assert(all.index_of(a) == i);
            return Some(asg[i]);
        }
        i += 1;
    }
    None
}

/// The truth value of `name == value` under the assignment of the first atoms.
fn assigned_enum(name: &str, value: &str, atoms: &Vec<Atom>, asg: &Vec<bool>) -> (r: Option<bool>)
    requires
        asg@.len() <= atoms@.len(),
        logic::atom_views(atoms@).no_duplicates(),
    ensures
        r == decision::assigned_value(
            logic::atom_views(atoms@),
            asg@,
            AtomV::EnumEq(name@, value@),
        ),
{
    let ghost all = logic::atom_views(atoms@);
    let ghost a = AtomV::EnumEq(name@, value@);
    let mut i: usize = 0;
    while i < asg.len()
        invariant
            i <= asg@.len(),
            asg@.len() <= atoms@.len(),
            all == logic::atom_views(atoms@),
            all.no_duplicates(),
            a == AtomV::EnumEq(name@, value@),
            forall|k: int| 0 <= k < i ==> all[k] != a,
        decreases asg@.len() - i,
    {
        assert(all[i as int] == atoms@[i as int]@);
        if let Atom::EnumEq(n, v) = &atoms[i] {
            if same(n.as_str(), name) && same(v.as_str(), value) {
                assert(all.contains(a));
                assert(all.index_of(a) == i);
                return Some(asg[i]);
            }
        }
        i += 1;
    }
    None
}

/// The truth value of a boolean variable under the assignment of the first atoms.
fn assigned_bool(name: &str, atoms: &Vec<Atom>, asg: &Vec<bool>) -> (r: Option<bool>)
    requires
        asg@.len() <= atoms@.len(),
        logic::atom_views(atoms@).no_duplicates(),
    ensures
        r == decision::assigned_value(logic::atom_views(atoms@), asg@, AtomV::Bool(name@)),
{
    let ghost all = logic::atom_views(atoms@);
    let ghost a = AtomV::Bool(name@);
    let mut i: usize = 0;
    while i < asg.len()
        invariant
            i <= asg@.len(),
            asg@.len() <= atoms@.len(),
            all == logic::atom_views(atoms@),
            all.no_duplicates(),
            a == AtomV::Bool(name@),
            forall|k: int| 0 <= k < i ==> all[k] != a,
        decreases asg@.len() - i,
    {
        assert(all[i as int] == atoms@[i as int]@);
        if let Atom::Bool(n) = &atoms[i] {
            if same(n.as_str(), name) {
                assert(all.contains(a));
                assert(all.index_of(a) == i);
                return Some(asg[i]);
            }
        }
        i += 1;
    }
    None
}

/// Three-valued evaluation of a parsed formula under a partial assignment. `None`
/// means "not yet determined by what has been assigned".
///
/// This walks an in-memory [`Expr`] tree. It executes nothing: there is no host
/// language here, no interpreter, and no path from policy text to code.
fn eval(e: &Expr, atoms: &Vec<Atom>, asg: &Vec<bool>) -> (r: Option<bool>)
    requires
        asg@.len() <= atoms@.len(),
        logic::atom_views(atoms@).no_duplicates(),
    ensures
        r == decision::evaluated(e@, logic::atom_views(atoms@), asg@),
    decreases e,
{
    let ghost table = logic::atom_views(atoms@);
    match e {
        Expr::Const(b) => Some(*b),
        Expr::Bool(_) | Expr::EnumEq(_, _) | Expr::Le(_) | Expr::Lt(_) => assigned_leaf(
            e,
            atoms,
            asg,
        ),
        Expr::Not(inner) => match eval(inner, atoms, asg) {
            Some(b) => Some(!b),
            None => None,
        },
        Expr::And(items) => {
            let ghost all = logic::exprs(items@);
            proof {
                logic::lemma_view_items(*items);
            }
            let mut unknown = false;
            let mut i: usize = 0;
            while i < items.len()
                invariant
                    i <= items@.len(),
                    all == logic::exprs(items@),
                    table == logic::atom_views(atoms@),
                    asg@.len() <= atoms@.len(),
                    table.no_duplicates(),
                    e@ == ExprV::And(all),
                    decision::evaluated_all(all.take(i as int), table, asg@) == (if unknown {
                        None
                    } else {
                        Some(true)
                    }),
                    *e matches Expr::And(v) && v == items,
                decreases items@.len() - i,
            {
                proof {
                    assert(all.take(i + 1).drop_last() =~= all.take(i as int));
                    assert(all.take(i + 1).last() == all[i as int]);
                }
                match eval(&items[i], atoms, asg) {
                    Some(false) => {
                        proof {
                            lemma_all_false(all, table, asg@, i + 1);
                        }
                        return Some(false);
                    },
                    Some(true) => {},
                    None => {
                        unknown = true;
                    },
                }
                i += 1;
            }
            assert(all.take(i as int) =~= all);
            if unknown {
                None
            } else {
                Some(true)
            }
        },
        Expr::Or(items) => {
            let ghost all = logic::exprs(items@);
            proof {
                logic::lemma_view_items(*items);
            }
            let mut unknown = false;
            let mut i: usize = 0;
            while i < items.len()
                invariant
                    i <= items@.len(),
                    all == logic::exprs(items@),
                    table == logic::atom_views(atoms@),
                    asg@.len() <= atoms@.len(),
                    table.no_duplicates(),
                    e@ == ExprV::Or(all),
                    decision::evaluated_any(all.take(i as int), table, asg@) == (if unknown {
                        None
                    } else {
                        Some(false)
                    }),
                    *e matches Expr::Or(v) && v == items,
                decreases items@.len() - i,
            {
                proof {
                    assert(all.take(i + 1).drop_last() =~= all.take(i as int));
                    assert(all.take(i + 1).last() == all[i as int]);
                }
                match eval(&items[i], atoms, asg) {
                    Some(true) => {
                        proof {
                            lemma_any_true(all, table, asg@, i + 1);
                        }
                        return Some(true);
                    },
                    Some(false) => {},
                    None => {
                        unknown = true;
                    },
                }
                i += 1;
            }
            assert(all.take(i as int) =~= all);
            if unknown {
                None
            } else {
                Some(false)
            }
        },
    }
}

proof fn lemma_all_false(items: Seq<ExprV>, atoms: Seq<AtomV>, asg: Seq<bool>, i: int)
    requires
        0 <= i <= items.len(),
        decision::evaluated_all(items.take(i), atoms, asg) == Some(false),
    ensures
        decision::evaluated_all(items, atoms, asg) == Some(false),
    decreases items.len() - i,
{
    if i < items.len() {
        assert(items.take(i + 1).drop_last() =~= items.take(i));
        lemma_all_false(items, atoms, asg, i + 1);
    } else {
        assert(items.take(i) =~= items);
    }
}

proof fn lemma_any_true(items: Seq<ExprV>, atoms: Seq<AtomV>, asg: Seq<bool>, i: int)
    requires
        0 <= i <= items.len(),
        decision::evaluated_any(items.take(i), atoms, asg) == Some(true),
    ensures
        decision::evaluated_any(items, atoms, asg) == Some(true),
    decreases items.len() - i,
{
    if i < items.len() {
        assert(items.take(i + 1).drop_last() =~= items.take(i));
        lemma_any_true(items, atoms, asg, i + 1);
    } else {
        assert(items.take(i) =~= items);
    }
}

/// The first declared value that has not been ruled out.
fn find_free(
    name: &str,
    values: &Vec<String>,
    atoms: &Vec<Atom>,
    asg: &Vec<bool>,
) -> (r: Option<usize>)
    requires
        asg@.len() <= atoms@.len(),
        logic::atom_views(atoms@).no_duplicates(),
    ensures
        match r {
            Some(k) => k < values@.len() && decision::free_text(
                logic::atom_views(atoms@),
                asg@,
                name@,
                text::texts(values@),
                0,
            ) == Some(values@[k as int]@),
            None => decision::free_text(
                logic::atom_views(atoms@),
                asg@,
                name@,
                text::texts(values@),
                0,
            ) is None,
        },
{
    let ghost table = logic::atom_views(atoms@);
    let ghost vs = text::texts(values@);
    let mut k: usize = 0;
    while k < values.len()
        invariant
            k <= values@.len(),
            asg@.len() <= atoms@.len(),
            table == logic::atom_views(atoms@),
            table.no_duplicates(),
            vs == text::texts(values@),
            decision::free_text(table, asg@, name@, vs, 0) == decision::free_text(
                table,
                asg@,
                name@,
                vs,
                k as int,
            ),
        decreases values@.len() - k,
    {
        match assigned_enum(name, values[k].as_str(), atoms, asg) {
            Some(false) => {},
            _ => {
                return Some(k);
            },
        }
        k += 1;
    }
    None
}

/// Do the assigned atoms contradict the enum domains? A variable takes exactly one
/// declared value.
fn enums_clash(env: &Env, atoms: &Vec<Atom>, asg: &Vec<bool>) -> (b: bool)
    requires
        asg@.len() <= atoms@.len(),
        logic::atom_views(atoms@).no_duplicates(),
    ensures
        b == decision::clash(env@, logic::atom_views(atoms@), asg@),
{
    let ghost table = logic::atom_views(atoms@);
    let mut i: usize = 0;
    while i < asg.len()
        invariant
            i <= asg@.len(),
            asg@.len() <= atoms@.len(),
            table == logic::atom_views(atoms@),
            table.no_duplicates(),
            forall|k: int| 0 <= k < i ==> !#[trigger] decision::clashes_at(env@, table, asg@, k),
        decreases asg@.len() - i,
    {
        assert(table[i as int] == atoms@[i as int]@);
        if let Atom::EnumEq(name, value) = &atoms[i] {
            if asg[i] {
                let mut j: usize = 0;
                while j < asg.len()
                    invariant
                        j <= asg@.len(),
                        i < asg@.len(),
                        asg@.len() <= atoms@.len(),
                        table == logic::atom_views(atoms@),
                        asg@[i as int],
                        table[i as int] == AtomV::EnumEq(name@, value@),
                        forall|k: int|
                            0 <= k < j && asg@[k] ==> !(#[trigger] table[k] matches AtomV::EnumEq(
                                n,
                                w,
                            ) && n == name@ && w != value@),
                    decreases asg@.len() - j,
                {
                    assert(table[j as int] == atoms@[j as int]@);
                    if asg[j] {
                        if let Atom::EnumEq(n, w) = &atoms[j] {
                            if same(n.as_str(), name.as_str()) && !same(
                                w.as_str(),
                                value.as_str(),
                            ) {
                                // `status == "active"` and `status == "closed"` cannot both
                                // hold.
                                assert(decision::other_value(table, asg@, name@, value@));
                                assert(decision::clashes_at(env@, table, asg@, i as int));
                                return true;
                            }
                        }
                    }
                    j += 1;
                }
                assert(!decision::other_value(table, asg@, name@, value@));
                if let Some(VarType::Enum { values }) = env.get(name.as_str()) {
                    if !holds_text(values, value.as_str()) {
                        assert(decision::clashes_at(env@, table, asg@, i as int));
                        return true;
                    }
                }
            } else {
                if let Some(VarType::Enum { values }) = env.get(name.as_str()) {
                    if find_free(name.as_str(), values, atoms, asg).is_none() {
                        // Every declared value has been ruled out.
                        assert(decision::clashes_at(env@, table, asg@, i as int));
                        return true;
                    }
                }
            }
        }
        assert(!decision::clashes_at(env@, table, asg@, i as int));
        i += 1;
    }
    false
}

/// The inequalities that the assigned atoms state. `l <= 0` asserted true stays
/// `l <= 0`; asserted false becomes `l > 0`, i.e. `-l < 0`. `None` where an opposite
/// overflows.
fn numeric_constraints(atoms: &Vec<Atom>, asg: &Vec<bool>) -> (r: Option<Vec<NumConstraint>>)
    requires
        asg@.len() <= atoms@.len(),
    ensures
        r is Some <==> decision::numeric(logic::atom_views(atoms@), asg@) is Some,
        r matches Some(cs) ==> decision::numeric(logic::atom_views(atoms@), asg@) == Some(
            con_views(cs@),
        ),
{
    let ghost table = logic::atom_views(atoms@);
    let mut out: Vec<NumConstraint> = Vec::new();
    let mut i: usize = 0;
    assert(con_views(out@) =~= Seq::empty());
    while i < asg.len()
        invariant
            i <= asg@.len(),
            asg@.len() <= atoms@.len(),
            table == logic::atom_views(atoms@),
            decision::numeric(table, asg@.take(i as int)) == Some(con_views(out@)),
        decreases asg@.len() - i,
    {
        let ghost before = con_views(out@);
        proof {
            assert(table[i as int] == atoms@[i as int]@);
            assert(asg@.take(i + 1).drop_last() =~= asg@.take(i as int));
            assert(asg@.take(i + 1).last() == asg@[i as int]);
            if decision::numeric(table, asg@.take(i + 1)) is None {
                lemma_numeric_none(table, asg@, i + 1);
            }
        }
        let value = asg[i];
        match &atoms[i] {
            Atom::Le(l) => {
                let lin = if value {
                    l.clone()
                } else {
                    l.neg()?
                };
                out.push(NumConstraint { lin, strict: !value });
                assert(con_views(out@) =~= before.push(out@.last()@));
            },
            Atom::Lt(l) => {
                let lin = if value {
                    l.clone()
                } else {
                    l.neg()?
                };
                out.push(NumConstraint { lin, strict: value });
                assert(con_views(out@) =~= before.push(out@.last()@));
            },
            _ => {},
        }
        i += 1;
    }
    assert(asg@.take(i as int) =~= asg@);
    Some(out)
}

proof fn lemma_numeric_none(atoms: Seq<AtomV>, asg: Seq<bool>, i: int)
    requires
        0 <= i <= asg.len(),
        decision::numeric(atoms, asg.take(i)) is None,
    ensures
        decision::numeric(atoms, asg) is None,
    decreases asg.len() - i,
{
    if i < asg.len() {
        assert(asg.take(i + 1).drop_last() =~= asg.take(i));
        lemma_numeric_none(atoms, asg, i + 1);
    } else {
        assert(asg.take(i) =~= asg);
    }
}

/// Check the assigned atoms against the enum domains and the linear arithmetic.
fn check_theory(
    env: &Env,
    atoms: &Vec<Atom>,
    asg: &Vec<bool>,
    used: &mut usize,
    budget: &Budget,
    clock: &Clock,
) -> (r: Feasible)
    requires
        asg@.len() <= atoms@.len(),
        logic::atom_views(atoms@).no_duplicates(),
    ensures
        (r@, *final(used) as nat) == decision::theory_check(
            env@,
            logic::atom_views(atoms@),
            asg@,
            *old(used) as nat,
            budget.limits(),
        ) || (clock.timed() && r@ == FeasibleV::Stop(Limit::Time)),
{
    if enums_clash(env, atoms, asg) {
        return Feasible::Infeasible;
    }
    match numeric_constraints(atoms, asg) {
        None => Feasible::Stop(Limit::Overflow),
        Some(cs) => feasible_linear(env, &cs, used, budget, clock),
    }
}

/// What a search ends with.
enum Answer {
    Found(Vec<bool>, NameMap<Rat>),
    Nothing,
    Stop(Limit),
}

impl View for Answer {
    type V = AnswerV;

    closed spec fn view(&self) -> AnswerV {
        match self {
            Answer::Found(asg, m) => AnswerV::Found(asg@, m@),
            Answer::Nothing => AnswerV::Nothing,
            Answer::Stop(l) => AnswerV::Stop(*l),
        }
    }
}

/// The nodes and branchings counted so far.
struct Counts {
    nodes: usize,
    branches: usize,
}

/// Case-split on the first atom that is still undetermined.
fn search(
    env: &Env,
    constraints: &[Expr],
    atoms: &Vec<Atom>,
    asg: &mut Vec<bool>,
    counts: &mut Counts,
    budget: &Budget,
    clock: &Clock,
) -> (r: Answer)
    requires
        old(asg)@.len() <= atoms@.len(),
        logic::atom_views(atoms@).no_duplicates(),
    ensures
        final(asg)@ == old(asg)@,
        (SearchV {
            answer: r@,
            nodes: final(counts).nodes as nat,
            branches: final(counts).branches as nat,
        }) == decision::search(
            env@,
            logic::exprs(constraints@),
            logic::atom_views(atoms@),
            old(asg)@,
            old(counts).nodes as nat,
            old(counts).branches as nat,
            budget.limits(),
        ) || (clock.timed() && r@ == AnswerV::Stop(Limit::Time)),
    decreases atoms@.len() - old(asg)@.len(),
{
    let ghost table = logic::atom_views(atoms@);
    let ghost cs = logic::exprs(constraints@);
    let ghost start = asg@;
    if clock.late() {
        return Answer::Stop(Limit::Time);
    }
    if counts.nodes >= budget.max_branch_nodes {
        return Answer::Stop(Limit::Nodes);
    }
    counts.nodes = counts.nodes + 1;
    // Propositional pruning: a constraint already false under the partial assignment
    // kills the branch without touching the theory.
    let mut all_true = true;
    let mut i: usize = 0;
    let n = constraints.len();
    while i < n
        invariant
            n == constraints@.len(),
            i <= n,
            asg@ == start,
            start.len() <= atoms@.len(),
            cs == logic::exprs(constraints@),
            table == logic::atom_views(atoms@),
            table.no_duplicates(),
            start == old(asg)@,
            counts.nodes == old(counts).nodes + 1,
            counts.branches == old(counts).branches,
            old(counts).nodes < budget.max_branch_nodes,
            forall|k: int|
                0 <= k < i ==> decision::evaluated(#[trigger] cs[k], table, start) != Some(false),
            all_true <==> (forall|k: int|
                0 <= k < i ==> decision::evaluated(#[trigger] cs[k], table, start) == Some(true)),
        decreases n - i,
    {
        assert(cs[i as int] == constraints@[i as int]@);
        match eval(&constraints[i], atoms, asg) {
            Some(false) => {
                assert(decision::refuted(cs, table, start));
                return Answer::Nothing;
            },
            Some(true) => {},
            None => {
                all_true = false;
            },
        }
        i += 1;
    }
    assert(!decision::refuted(cs, table, start));
    assert(all_true == decision::confirmed(cs, table, start));
    // Theory consistency of what has been assigned so far.
    let numeric = match check_theory(env, atoms, asg, &mut counts.branches, budget, clock) {
        Feasible::Infeasible => {
            return Answer::Nothing;
        },
        Feasible::Stop(l) => {
            return Answer::Stop(l);
        },
        Feasible::Feasible(numeric) => numeric,
    };
    if all_true {
        return Answer::Found(copy_bits(asg), numeric);
    }
    if asg.len() >= atoms.len() {
        return Answer::Nothing;
    }
    asg.push(true);
    let first = search(env, constraints, atoms, asg, counts, budget, clock);
    asg.pop();
    assert(asg@ =~= start);
    match first {
        Answer::Nothing => {},
        other => {
            return other;
        },
    }
    asg.push(false);
    let second = search(env, constraints, atoms, asg, counts, budget, clock);
    asg.pop();
    assert(asg@ =~= start);
    second
}

fn copy_bits(v: &Vec<bool>) -> (r: Vec<bool>)
    ensures
        r@ == v@,
{
    let mut out: Vec<bool> = Vec::new();
    let mut i: usize = 0;
    while i < v.len()
        invariant
            i <= v@.len(),
            out@ == v@.take(i as int),
        decreases v@.len() - i,
    {
        out.push(v[i]);
        i += 1;
        assert(out@ =~= v@.take(i as int));
    }
    assert(v@.take(i as int) =~= v@);
    out
}

/// The atoms of formulas, each once.
fn distinct_atoms(constraints: &[Expr]) -> (r: Vec<Atom>)
    ensures
        logic::atom_views(r@) == decision::distinct(
            logic::atoms_of_all(logic::exprs(constraints@)),
        ),
        logic::atom_views(r@).no_duplicates(),
        forall|k: int| 0 <= k < r@.len() ==> logic::atom_wf(#[trigger] logic::atom_views(r@)[k]),
{
    let ghost cs = logic::exprs(constraints@);
    let mut all: Vec<Atom> = Vec::new();
    let n = constraints.len();
    let mut i: usize = 0;
    assert(logic::atom_views(all@) =~= Seq::empty());
    while i < n
        invariant
            n == constraints@.len(),
            i <= n,
            cs == logic::exprs(constraints@),
            logic::atom_views(all@) == logic::atoms_of_all(cs.take(i as int)),
            forall|k: int|
                0 <= k < all@.len() ==> logic::atom_wf(#[trigger] logic::atom_views(all@)[k]),
        decreases n - i,
    {
        proof {
            assert(cs.take(i + 1).drop_last() =~= cs.take(i as int));
            assert(cs.take(i + 1).last() == cs[i as int]);
        }
        let ghost before = logic::atom_views(all@);
        constraints[i].atoms(&mut all);
        proof {
            assert forall|k: int| 0 <= k < all@.len() implies logic::atom_wf(
                #[trigger] logic::atom_views(all@)[k],
            ) by {
                if k < before.len() {
                    assert(logic::atom_views(all@)[k] == before[k]);
                }
            }
        }
        i += 1;
    }
    assert(cs.take(n as int) =~= cs);
    let ghost table = logic::atom_views(all@);
    let mut out: Vec<Atom> = Vec::new();
    let mut j: usize = 0;
    assert(logic::atom_views(out@) =~= Seq::empty());
    while j < all.len()
        invariant
            j <= all@.len(),
            table == logic::atom_views(all@),
            logic::atom_views(out@) == decision::distinct(table.take(j as int)),
            logic::atom_views(out@).no_duplicates(),
            forall|k: int| 0 <= k < all@.len() ==> logic::atom_wf(#[trigger] table[k]),
            forall|k: int|
                0 <= k < out@.len() ==> logic::atom_wf(#[trigger] logic::atom_views(out@)[k]),
        decreases all@.len() - j,
    {
        proof {
            assert(table.take(j + 1).drop_last() =~= table.take(j as int));
            assert(table.take(j + 1).last() == table[j as int]);
        }
        let ghost front = logic::atom_views(out@);
        let mut k: usize = 0;
        let mut found = false;
        while k < out.len() && !found
            invariant
                k <= out@.len(),
                j < all@.len(),
                table == logic::atom_views(all@),
                front == logic::atom_views(out@),
                found ==> front.contains(table[j as int]),
                !found ==> forall|l: int| 0 <= l < k ==> front[l] != table[j as int],
            decreases out@.len() - k,
        {
            assert(front[k as int] == out@[k as int]@);
            assert(table[j as int] == all@[j as int]@);
            if out[k].same_atom(&all[j]) {
                found = true;
            }
            k += 1;
        }
        if !found {
            out.push(all[j].clone());
            assert(logic::atom_views(out@) =~= front.push(table[j as int]));
        }
        j += 1;
    }
    assert(table.take(j as int) =~= table);
    out
}

// ── Answers ─────────────────────────────────────────────────────────────────────

/// A value in a model.
#[derive(Debug, PartialEq, Eq)]
pub enum Value {
    Bool(bool),
    Text(String),
    /// Rendered exactly (`"0.25"`, `"1/3"`), never as a lossy float.
    Number(String),
}

impl View for Value {
    type V = ValueV;

    open spec fn view(&self) -> ValueV {
        match self {
            Value::Bool(b) => ValueV::Bool(*b),
            Value::Text(s) => ValueV::Text(s@),
            Value::Number(n) => ValueV::Number(n@),
        }
    }
}

impl Clone for Value {
    fn clone(&self) -> (r: Value)
        ensures
            r@ == self@,
    {
        match self {
            Value::Bool(b) => Value::Bool(*b),
            Value::Text(s) => Value::Text(s.clone()),
            Value::Number(n) => Value::Number(n.clone()),
        }
    }
}

/// A value as it is shown.
pub open spec fn rendered(v: ValueV) -> Seq<char> {
    match v {
        ValueV::Bool(b) => if b {
            "true"@
        } else {
            "false"@
        },
        ValueV::Text(s) => s,
        ValueV::Number(n) => n,
    }
}

impl Value {
    /// The value as it is shown.
    pub fn render(&self) -> (r: String)
        ensures
            r@ == rendered(self@),
    {
        match self {
            Value::Bool(b) => if *b {
                "true".to_owned()
            } else {
                "false".to_owned()
            },
            Value::Text(s) => s.clone(),
            Value::Number(n) => n.clone(),
        }
    }
}

/// A concrete assignment to every variable the formula mentions — the witness a
/// finding shows the user as "here is a world where your answer is wrong".
#[derive(Debug, PartialEq, Eq)]
pub struct Model {
    pub values: NameMap<Value>,
}

impl View for Model {
    type V = Map<Seq<char>, ValueV>;

    open spec fn view(&self) -> Map<Seq<char>, ValueV> {
        names::as_map(self.values@)
    }
}

impl Default for Model {
    fn default() -> (r: Model)
        ensures
            r.values@ == Seq::<(Seq<char>, ValueV)>::empty(),
    {
        Model { values: NameMap::new() }
    }
}

impl Clone for Model {
    fn clone(&self) -> (r: Model)
        ensures
            r.values@ == self.values@,
            r@ == self@,
    {
        let n = self.values.len();
        let mut values: NameMap<Value> = NameMap::new();
        let mut i: usize = 0;
        while i < n
            invariant
                n == self.values@.len(),
                i <= n,
                names::ordered(self.values@),
                values@ == self.values@.take(i as int),
            decreases n - i,
        {
            values.push(self.values.name_at(i).clone(), self.values.value_at(i).clone());
            i += 1;
            assert(values@ =~= self.values@.take(i as int));
        }
        assert(self.values@.take(n as int) =~= self.values@);
        Model { values }
    }
}

/// What the solver decided.
#[derive(Debug)]
pub enum Outcome {
    /// A model exists; here is one.
    Sat(Model),
    /// No model exists. This is a proof, not a timeout.
    Unsat,
    /// A budget ran out. Says nothing about satisfiability.
    Unknown(String),
}

impl View for Outcome {
    type V = OutcomeV;

    open spec fn view(&self) -> OutcomeV {
        match self {
            Outcome::Sat(m) => OutcomeV::Sat(m@),
            Outcome::Unsat => OutcomeV::Unsat,
            Outcome::Unknown(why) => OutcomeV::Unknown(why@),
        }
    }
}

impl Outcome {
    pub fn is_sat(&self) -> (b: bool)
        ensures
            b == (self@ is Sat),
    {
        match self {
            Outcome::Sat(_) => true,
            _ => false,
        }
    }

    pub fn is_unsat(&self) -> (b: bool)
        ensures
            b == (self@ is Unsat),
    {
        match self {
            Outcome::Unsat => true,
            _ => false,
        }
    }

    pub fn is_unknown(&self) -> (b: bool)
        ensures
            b == (self@ is Unknown),
    {
        match self {
            Outcome::Unknown(_) => true,
            _ => false,
        }
    }

    /// The model, if there is one.
    pub fn model(&self) -> (r: Option<&Model>)
        ensures
            r is Some <==> self@ is Sat,
            r matches Some(m) ==> self@ == OutcomeV::Sat(m@),
    {
        match self {
            Outcome::Sat(m) => Some(m),
            _ => None,
        }
    }
}

/// The value that a variable is asserted to have.
fn find_true(name: &str, atoms: &Vec<Atom>, asg: &Vec<bool>) -> (r: Option<String>)
    requires
        asg@.len() <= atoms@.len(),
    ensures
        match r {
            Some(t) => decision::true_text(logic::atom_views(atoms@), asg@, name@, 0) == Some(t@),
            None => decision::true_text(logic::atom_views(atoms@), asg@, name@, 0) is None,
        },
{
    let ghost table = logic::atom_views(atoms@);
    let mut i: usize = 0;
    while i < asg.len()
        invariant
            i <= asg@.len(),
            asg@.len() <= atoms@.len(),
            table == logic::atom_views(atoms@),
            decision::true_text(table, asg@, name@, 0) == decision::true_text(
                table,
                asg@,
                name@,
                i as int,
            ),
        decreases asg@.len() - i,
    {
        assert(table[i as int] == atoms@[i as int]@);
        if asg[i] {
            if let Atom::EnumEq(n, w) = &atoms[i] {
                if same(n.as_str(), name) {
                    return Some(w.clone());
                }
            }
        }
        i += 1;
    }
    None
}

/// The value of a variable in a model: what was assigned or solved for, else any value
/// of its sort that has not been ruled out.
fn choose_value(
    env: &Env,
    atoms: &Vec<Atom>,
    asg: &Vec<bool>,
    numeric: &NameMap<Rat>,
    name: &str,
) -> (r: Option<Value>)
    requires
        asg@.len() <= atoms@.len(),
        logic::atom_views(atoms@).no_duplicates(),
    ensures
        match r {
            Some(v) => decision::value_for(
                env@,
                logic::atom_views(atoms@),
                asg@,
                numeric@,
                name@,
            ) == Some(v@),
            None => decision::value_for(
                env@,
                logic::atom_views(atoms@),
                asg@,
                numeric@,
                name@,
            ) is None,
        },
{
    if let Some(x) = numeric.get(name) {
        return Some(Value::Number(x.to_display()));
    }
    if let Some(t) = find_true(name, atoms, asg) {
        return Some(Value::Text(t));
    }
    match env.get(name) {
        Some(VarType::Enum { values }) => match find_free(name, values, atoms, asg) {
            Some(k) => Some(Value::Text(values[k].clone())),
            None => None,
        },
        Some(VarType::Bool) => match assigned_bool(name, atoms, asg) {
            Some(b) => Some(Value::Bool(b)),
            None => Some(Value::Bool(false)),
        },
        Some(_) => Some(Value::Number(Rat::zero().to_display())),
        None => match assigned_bool(name, atoms, asg) {
            Some(b) => Some(Value::Bool(b)),
            None => None,
        },
    }
}

/// A value for every variable that the formulas mention.
fn build_model(
    env: &Env,
    constraints: &[Expr],
    atoms: &Vec<Atom>,
    asg: &Vec<bool>,
    numeric: &NameMap<Rat>,
) -> (r: Model)
    requires
        asg@.len() <= atoms@.len(),
        logic::atom_views(atoms@).no_duplicates(),
    ensures
        r@ == decision::model_of(
            env@,
            logic::exprs(constraints@),
            logic::atom_views(atoms@),
            asg@,
            numeric@,
        ),
{
    let ghost cs = logic::exprs(constraints@);
    let ghost table = logic::atom_views(atoms@);
    let names = mentioned(constraints);
    let ghost all = text::texts(names@);
    let mut values: NameMap<Value> = NameMap::new();
    let mut i: usize = 0;
    while i < names.len()
        invariant
            i <= names@.len(),
            asg@.len() <= atoms@.len(),
            table == logic::atom_views(atoms@),
            table.no_duplicates(),
            all == text::texts(names@),
            forall|x: Seq<char>| #[trigger]
                names::lookup(values@, x) == if all.take(i as int).contains(x) {
                    decision::value_for(env@, table, asg@, numeric@, x)
                } else {
                    None
                },
        decreases names@.len() - i,
    {
        let ghost before = values@;
        let name = names[i].as_str();
        proof {
            assert(all[i as int] == name@);
            assert(all.take(i + 1) =~= all.take(i as int).push(name@));
            assert forall|x: Seq<char>| #[trigger] all.take(i + 1).contains(x) <==> x == name@
                || all.take(i as int).contains(x) by {
                if all.take(i as int).contains(x) {
                    let k = all.take(i as int).index_of(x);
                    assert(all.take(i + 1)[k] == x);
                }
                assert(all.take(i + 1)[i as int] == name@);
                if all.take(i + 1).contains(x) && x != name@ {
                    let k = all.take(i + 1).index_of(x);
                    assert(all.take(i as int)[k] == x);
                }
            }
        }
        if let Some(v) = choose_value(env, atoms, asg, numeric, name) {
            values.insert(names[i].clone(), v);
        }
        i += 1;
    }
    proof {
        assert(all.take(i as int) =~= all);
        let target = decision::model_of(env@, cs, table, asg@, numeric@);
        assert forall|x: Seq<char>| #[trigger]
            names::as_map(values@).dom().contains(x) <==> target.dom().contains(x) by {
            assert(names::named(values@, x) <==> names::lookup(values@, x) is Some);
        }
        assert(names::as_map(values@) =~= target);
    }
    Model { values }
}

/// The variables that formulas mention, in order and with repetitions.
fn mentioned(constraints: &[Expr]) -> (r: Vec<String>)
    ensures
        text::texts(r@) == logic::vars_of_all(logic::exprs(constraints@)),
{
    let ghost cs = logic::exprs(constraints@);
    let mut out: Vec<String> = Vec::new();
    let n = constraints.len();
    let mut i: usize = 0;
    assert(text::texts(out@) =~= Seq::empty());
    while i < n
        invariant
            n == constraints@.len(),
            i <= n,
            cs == logic::exprs(constraints@),
            text::texts(out@) == logic::vars_of_all(cs.take(i as int)),
        decreases n - i,
    {
        proof {
            assert(cs.take(i + 1).drop_last() =~= cs.take(i as int));
            assert(cs.take(i + 1).last() == cs[i as int]);
        }
        constraints[i].vars(&mut out);
        i += 1;
    }
    assert(cs.take(n as int) =~= cs);
    out
}

/// What is said where something ran out.
fn explain(l: Limit, budget: &Budget) -> (r: String)
    ensures
        r@ == decision::reason(l, budget.limits()),
{
    match l {
        Limit::Time => {
            let ms = natural(budget.time_limit.as_millis());
            cat3("search exceeded its ", ms.as_str(), " ms time limit")
        },
        Limit::Nodes => {
            let n = count(budget.max_branch_nodes);
            cat3("boolean search exceeded ", n.as_str(), " nodes")
        },
        Limit::Constraints => {
            let n = count(budget.max_fm_constraints);
            cat3("Fourier–Motzkin elimination exceeded ", n.as_str(), " constraints")
        },
        Limit::Branches => {
            let n = count(budget.max_int_branches);
            cat3("integer branch-and-bound exceeded ", n.as_str(), " branches")
        },
        Limit::Bound => "integer bound overflowed".to_owned(),
        Limit::Overflow => "exact arithmetic overflowed".to_owned(),
    }
}

/// Solve with the atoms at hand.
fn solve_with(
    env: &Env,
    constraints: &[Expr],
    atoms: &Vec<Atom>,
    budget: &Budget,
    clock: &Clock,
) -> (r: Outcome)
    requires
        logic::atom_views(atoms@) == decision::distinct(
            logic::atoms_of_all(logic::exprs(constraints@)),
        ),
        logic::atom_views(atoms@).no_duplicates(),
    ensures
        decision::answers(env@, logic::exprs(constraints@), budget.limits(), r@),
        !clock.timed() ==> r@ == decision::decision(
            env@,
            logic::exprs(constraints@),
            budget.limits(),
        ),
{
    if atoms.len() > budget.max_atoms {
        let n = count(atoms.len());
        let max = count(budget.max_atoms);
        return Outcome::Unknown(
            cat4("formula has ", n.as_str(), " distinct atoms, over the limit of ", max.as_str()),
        );
    }
    let mut counts = Counts { nodes: 0, branches: 0 };
    let mut asg: Vec<bool> = Vec::new();
    assert(asg@ =~= Seq::empty());
    match search(env, constraints, atoms, &mut asg, &mut counts, budget, clock) {
        Answer::Found(asg, numeric) => {
            proof {
                lemma_found_len(
                    env@,
                    logic::exprs(constraints@),
                    logic::atom_views(atoms@),
                    Seq::empty(),
                    0,
                    0,
                    budget.limits(),
                );
            }
            Outcome::Sat(build_model(env, constraints, atoms, &asg, &numeric))
        },
        Answer::Nothing => Outcome::Unsat,
        Answer::Stop(l) => Outcome::Unknown(explain(l, budget)),
    }
}

proof fn lemma_found_len(
    env: Sorts,
    cs: Seq<ExprV>,
    atoms: Seq<AtomV>,
    asg: Seq<bool>,
    nodes: nat,
    branches: nat,
    lim: Limits,
)
    requires
        asg.len() <= atoms.len(),
    ensures
        decision::search(env, cs, atoms, asg, nodes, branches, lim).answer matches AnswerV::Found(
            f,
            _,
        ) ==> f.len() <= atoms.len(),
    decreases atoms.len() - asg.len(),
{
    if nodes < lim.nodes && !decision::refuted(cs, atoms, asg) {
        let (t, b) = decision::theory_check(env, atoms, asg, branches, lim);
        if t is Feasible && !decision::confirmed(cs, atoms, asg) && asg.len() < atoms.len() {
            lemma_found_len(env, cs, atoms, asg.push(true), nodes + 1, b, lim);
            let r = decision::search(env, cs, atoms, asg.push(true), nodes + 1, b, lim);
            lemma_found_len(env, cs, atoms, asg.push(false), r.nodes, r.branches, lim);
        }
    }
}

/// Decide a conjunction of formulas.
///
/// The formulas are implicitly ANDed: this is the single primitive the verdict layer
/// calls with `policy ∧ premises ∧ ¬claim` and friends. The answer is the decision of
/// the formulas, or that the time limit passed first; either way it tells the truth.
pub fn solve(env: &Env, constraints: &[Expr], budget: &Budget) -> (r: Outcome)
    ensures
        decision::answers(env@, logic::exprs(constraints@), budget.limits(), r@),
        soundness::truthful(env@, logic::exprs(constraints@), r@),
        soundness::atoms_wf(logic::exprs(constraints@)),
{
    let clock = Clock::start(budget.time_limit);
    solve_on(env, constraints, budget, &clock)
}

/// Decide a conjunction of formulas by a given clock.
pub fn solve_on(env: &Env, constraints: &[Expr], budget: &Budget, clock: &Clock) -> (r: Outcome)
    ensures
        decision::answers(env@, logic::exprs(constraints@), budget.limits(), r@),
        soundness::truthful(env@, logic::exprs(constraints@), r@),
        soundness::atoms_wf(logic::exprs(constraints@)),
        !clock.timed() ==> r@ == decision::decision(
            env@,
            logic::exprs(constraints@),
            budget.limits(),
        ),
{
    let ghost cs = logic::exprs(constraints@);
    let atoms = distinct_atoms(constraints);
    let r = solve_with(env, constraints, &atoms, budget, clock);
    proof {
        let table = logic::atom_views(atoms@);
        soundness::lemma_distinct(logic::atoms_of_all(cs));
        assert forall|a: AtomV| #[trigger]
            logic::atoms_of_all(cs).contains(a) implies logic::atom_wf(a) by {
            assert(table.contains(a));
            assert(logic::atom_wf(table[table.index_of(a)]));
        }
        soundness::lemma_truthful(env@, cs, budget.limits(), r@);
    }
    r
}

/// Convenience: is this set of formulas satisfiable?
pub fn is_sat(env: &Env, constraints: &[Expr], budget: &Budget) -> (r: Outcome)
    ensures
        decision::answers(env@, logic::exprs(constraints@), budget.limits(), r@),
        soundness::truthful(env@, logic::exprs(constraints@), r@),
        soundness::atoms_wf(logic::exprs(constraints@)),
{
    solve(env, constraints, budget)
}

/// Collect the atoms of one solve call, each once, and run `f` on them.
pub fn with_atom_table<T, F: FnOnce(&Vec<Atom>) -> T>(constraints: &[Expr], f: F) -> (r: T)
    requires
        forall|table: Vec<Atom>|
            logic::atom_views(table@) == decision::distinct(
                logic::atoms_of_all(logic::exprs(constraints@)),
            ) ==> #[trigger] f.requires((&table,)),
    ensures
        exists|table: Vec<Atom>|
            logic::atom_views(table@) == decision::distinct(
                logic::atoms_of_all(logic::exprs(constraints@)),
            ) && #[trigger] f.ensures((&table,), r),
{
    let table = distinct_atoms(constraints);
    f(&table)
}

/// The entry point callers should use: prepares the atom table, then solves.
pub fn decide(env: &Env, constraints: &[Expr], budget: &Budget) -> (r: Outcome)
    ensures
        decision::answers(env@, logic::exprs(constraints@), budget.limits(), r@),
        soundness::truthful(env@, logic::exprs(constraints@), r@),
        soundness::atoms_wf(logic::exprs(constraints@)),
{
    solve(env, constraints, budget)
}

/// Decide without a time limit, so that the answer is the decision itself.
pub fn decide_untimed(env: &Env, constraints: &[Expr], budget: &Budget) -> (r: Outcome)
    ensures
        r@ == decision::decision(env@, logic::exprs(constraints@), budget.limits()),
        soundness::truthful(env@, logic::exprs(constraints@), r@),
        soundness::atoms_wf(logic::exprs(constraints@)),
{
    let clock = Clock::stopped(budget.time_limit);
    solve_on(env, constraints, budget, &clock)
}

/// A name is declared exactly where a variable has it, with the sort of the last that has.
pub proof fn lemma_declared(v: Seq<VariableV>, name: Seq<char>)
    ensures
        declared(v, name) is None <==> forall|i: int|
            0 <= i < v.len() ==> (#[trigger] v[i]).name != name,
        declared(v, name) matches Some(ty) ==> exists|i: int|
            {
                &&& 0 <= i < v.len()
                &&& (#[trigger] v[i]).name == name
                &&& v[i].ty == ty
                &&& forall|j: int| i < j < v.len() ==> (#[trigger] v[j]).name != name
            },
    decreases v.len(),
{
    if v.len() > 0 {
        let init = v.drop_last();
        let n = init.len() as int;
        lemma_declared(init, name);
        if v[n].name == name {
            assert(v[n].ty == declared(v, name)->0);
        } else if declared(init, name) is None {
            assert forall|i: int| 0 <= i < v.len() implies (#[trigger] v[i]).name != name by {
                if i < n {
                    assert(init[i] == v[i]);
                }
            }
        } else {
            let i = choose|i: int|
                {
                    &&& 0 <= i < init.len()
                    &&& (#[trigger] init[i]).name == name
                    &&& init[i].ty == declared(init, name)->0
                    &&& forall|j: int| i < j < init.len() ==> (#[trigger] init[j]).name != name
                };
            assert(v[i] == init[i]);
            assert forall|j: int| i < j < v.len() implies (#[trigger] v[j]).name != name by {
                if j < n {
                    assert(init[j] == v[j]);
                }
            }
        }
    }
}

} // verus!
