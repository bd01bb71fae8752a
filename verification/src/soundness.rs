//! Why decisions are right.

use vstd::prelude::*;

use crate::decision;
use crate::decision::{AnswerV, Limits, OutcomeV, ValueV};
use crate::linear;
use crate::linear::Terms;
use crate::logic;
use crate::logic::{AtomV, ExprV, VarTypeV};
use crate::names;
use crate::num;
use crate::num::Rat;
use crate::reading;
use crate::semantics;
use crate::semantics::{Sorts, Valuation};
use crate::theory;
use crate::theory::{ConV, FeasibleV};

verus! {

/// Are the linear forms of the formulas in normal form?
pub open spec fn atoms_wf(cs: Seq<ExprV>) -> bool {
    forall|a: AtomV| #[trigger] logic::atoms_of_all(cs).contains(a) ==> logic::atom_wf(a)
}

/// Does the world give the first atoms these truth values?
pub open spec fn agrees(atoms: Seq<AtomV>, asg: Seq<bool>, v: Valuation) -> bool {
    forall|i: int| 0 <= i < asg.len() ==> semantics::atom_holds(#[trigger] atoms[i], v) == asg[i]
}

/// Dropping repetitions keeps the items.
pub proof fn lemma_distinct(s: Seq<AtomV>)
    ensures
        decision::distinct(s).no_duplicates(),
        forall|a: AtomV| #[trigger] decision::distinct(s).contains(a) <==> s.contains(a),
    decreases s.len(),
{
    if s.len() > 0 {
        let init = s.drop_last();
        lemma_distinct(init);
        let front = decision::distinct(init);
        let r = decision::distinct(s);
        assert forall|a: AtomV| #[trigger] r.contains(a) <==> s.contains(a) by {
            if s.contains(a) {
                let i = s.index_of(a);
                if i < init.len() {
                    assert(init[i] == a);
                    assert(front.contains(a));
                    assert(r[front.index_of(a)] == a);
                } else if !front.contains(a) {
                    assert(r[front.len() as int] == a);
                }
            }
            if r.contains(a) {
                let i = r.index_of(a);
                if i < front.len() {
                    assert(front[i] == a);
                    assert(front.contains(a));
                    assert(s[init.index_of(a)] == a);
                } else {
                    assert(s[s.len() - 1] == a);
                }
            }
        }
    }
}

/// What three-valued evaluation determines is so in every world that agrees with the
/// assignment.
pub proof fn lemma_evaluated(e: ExprV, atoms: Seq<AtomV>, asg: Seq<bool>, v: Valuation)
    requires
        agrees(atoms, asg, v),
    ensures
        decision::evaluated(e, atoms, asg) matches Some(b) ==> semantics::holds(e, v) == b,
    decreases e,
{
    match e {
        ExprV::Not(inner) => {
            lemma_evaluated(*inner, atoms, asg, v);
        },
        ExprV::And(items) => {
            lemma_evaluated_items(items, atoms, asg, v);
        },
        ExprV::Or(items) => {
            lemma_evaluated_items(items, atoms, asg, v);
        },
        ExprV::Const(_) => {},
        _ => {
            let a = logic::leaf(e)->0;
            if atoms.contains(a) {
                assert(atoms[atoms.index_of(a)] == a);
            }
        },
    }
}

proof fn lemma_evaluated_items(
    items: Seq<ExprV>,
    atoms: Seq<AtomV>,
    asg: Seq<bool>,
    v: Valuation,
)
    requires
        agrees(atoms, asg, v),
    ensures
        decision::evaluated_all(items, atoms, asg) matches Some(b) ==> semantics::all_of(items, v)
            == b,
        decision::evaluated_any(items, atoms, asg) matches Some(b) ==> semantics::one_of(items, v)
            == b,
    decreases items,
{
    if items.len() > 0 {
        lemma_evaluated_items(items.drop_last(), atoms, asg, v);
        lemma_evaluated(items.last(), atoms, asg, v);
    }
}

/// A complete assignment determines everything.
proof fn lemma_total(e: ExprV, atoms: Seq<AtomV>, asg: Seq<bool>)
    requires
        asg.len() >= atoms.len(),
        forall|a: AtomV| #[trigger] logic::atoms_of(e).contains(a) ==> atoms.contains(a),
    ensures
        decision::evaluated(e, atoms, asg) is Some,
    decreases e,
{
    match e {
        ExprV::Not(inner) => {
            assert(logic::atoms_of(e) == logic::atoms_of(*inner));
            lemma_total(*inner, atoms, asg);
        },
        ExprV::And(items) => {
            assert(logic::atoms_of(e) == logic::atoms_of_all(items));
            lemma_total_items(items, atoms, asg);
        },
        ExprV::Or(items) => {
            assert(logic::atoms_of(e) == logic::atoms_of_all(items));
            lemma_total_items(items, atoms, asg);
        },
        ExprV::Const(_) => {},
        _ => {
            let a = logic::leaf(e)->0;
            assert(logic::atoms_of(e)[0] == a);
            assert(logic::atoms_of(e).contains(a));
        },
    }
}

proof fn lemma_total_items(items: Seq<ExprV>, atoms: Seq<AtomV>, asg: Seq<bool>)
    requires
        asg.len() >= atoms.len(),
        forall|a: AtomV| #[trigger] logic::atoms_of_all(items).contains(a) ==> atoms.contains(a),
    ensures
        decision::evaluated_all(items, atoms, asg) is Some,
        decision::evaluated_any(items, atoms, asg) is Some,
    decreases items,
{
    if items.len() > 0 {
        let init = items.drop_last();
        semantics::lemma_atoms_of_last(items);
        assert forall|a: AtomV| #[trigger]
            logic::atoms_of_all(init).contains(a) implies atoms.contains(a) by {
            assert(logic::atoms_of_all(items).contains(a));
        }
        assert forall|a: AtomV| #[trigger]
            logic::atoms_of(items.last()).contains(a) implies atoms.contains(a) by {
            assert(logic::atoms_of_all(items).contains(a));
        }
        lemma_total_items(init, atoms, asg);
        lemma_total(items.last(), atoms, asg);
        let (p, q) = (
            decision::evaluated_all(init, atoms, asg)->0,
            decision::evaluated_any(init, atoms, asg)->0,
        );
        let r = decision::evaluated(items.last(), atoms, asg)->0;
        assert(decision::both(Some(p), Some(r)) == Some(p && r));
        assert(decision::either(Some(q), Some(r)) == Some(q || r));
    }
}

// ── Theory ──────────────────────────────────────────────────────────────────────

/// Is a numeric atom true of the values?
spec fn num_holds(a: AtomV, f: spec_fn(Seq<char>) -> real) -> bool {
    match a {
        AtomV::Le(l) => linear::value(l, f) <= 0 as real,
        AtomV::Lt(l) => linear::value(l, f) < 0 as real,
        _ => true,
    }
}

/// The form of a numeric atom.
spec fn form(a: AtomV) -> Option<linear::LinV> {
    match a {
        AtomV::Le(l) => Some(l),
        AtomV::Lt(l) => Some(l),
        _ => None,
    }
}

/// An assigned numeric atom states what its truth value says.
proof fn lemma_stated(a: AtomV, b: bool, f: spec_fn(Seq<char>) -> real)
    requires
        logic::atom_wf(a),
    ensures
        decision::stated(a, b) matches Some(Some(c)) ==> {
            &&& linear::lin_wf(c.lin)
            &&& form(a) matches Some(l) && (forall|x: Seq<char>| #[trigger]
                names::named(c.lin.terms, x) <==> names::named(l.terms, x))
            &&& theory::con_holds(c, f) <==> num_holds(a, f) == b
        },
        decision::stated(a, b) == Some(None::<ConV>) ==> form(a) is None,
{
    match a {
        AtomV::Le(l) => {
            linear::lemma_opposite(l, f);
        },
        AtomV::Lt(l) => {
            linear::lemma_opposite(l, f);
        },
        _ => {},
    }
}

/// The stated inequalities are true exactly where the numeric atoms have their truth
/// values, and mention their variables only.
proof fn lemma_numeric(atoms: Seq<AtomV>, asg: Seq<bool>, f: spec_fn(Seq<char>) -> real)
    requires
        asg.len() <= atoms.len(),
        forall|i: int| 0 <= i < atoms.len() ==> logic::atom_wf(#[trigger] atoms[i]),
    ensures
        decision::numeric(atoms, asg) matches Some(cs) ==> {
            &&& theory::cons_wf(cs)
            &&& theory::cons_hold(cs, f) <==> forall|i: int|
                0 <= i < asg.len() && form(#[trigger] atoms[i]) is Some ==> num_holds(atoms[i], f)
                    == asg[i]
            &&& forall|x: Seq<char>| #[trigger]
                theory::occurs(cs, x) ==> exists|i: int|
                    0 <= i < asg.len() && (form(#[trigger] atoms[i]) matches Some(l)
                        && names::named(l.terms, x))
        },
    decreases asg.len(),
{
    if asg.len() > 0 && decision::numeric(atoms, asg) is Some {
        let init = asg.drop_last();
        let n = asg.len() - 1;
        lemma_numeric(atoms, init, f);
        lemma_stated(atoms[n], asg.last(), f);
        let front = decision::numeric(atoms, init)->0;
        let cs = decision::numeric(atoms, asg)->0;
        match decision::stated(atoms[n], asg.last())->0 {
            Some(c) => {
                assert(cs == front.push(c));
                assert(cs[front.len() as int] == c);
                assert(theory::cons_wf(cs));
                assert(theory::cons_hold(cs, f) <==> theory::cons_hold(front, f)
                    && theory::con_holds(c, f)) by {
                    if theory::cons_hold(cs, f) {
                        assert(theory::con_holds(cs[front.len() as int], f));
                        assert forall|i: int| 0 <= i < front.len() implies theory::con_holds(
                            #[trigger] front[i],
                            f,
                        ) by {
                            assert(theory::con_holds(cs[i], f));
                        }
                    }
                }
                assert forall|x: Seq<char>| #[trigger] theory::occurs(cs, x) implies exists|i: int|
                    0 <= i < asg.len() && (form(#[trigger] atoms[i]) matches Some(l)
                        && names::named(l.terms, x)) by {
                    let k = choose|k: int|
                        0 <= k < cs.len() && names::named((#[trigger] cs[k]).lin.terms, x);
                    if k < front.len() {
                        assert(names::named(front[k].lin.terms, x));
                        assert(theory::occurs(front, x));
                        let i = choose|i: int|
                            0 <= i < init.len() && (form(#[trigger] atoms[i]) matches Some(l)
                                && names::named(l.terms, x));
                        assert(form(atoms[i]) is Some);
                    } else {
                        assert(form(atoms[n]) is Some);
                    }
                }
            },
            None => {
                assert(form(atoms[n]) is None);
            },
        }
        assert(forall|i: int| 0 <= i < init.len() ==> init[i] == asg[i]);
    }
}

/// Does the world respect the sorts of what the atoms test?
spec fn fair(env: Sorts, atoms: Seq<AtomV>, v: Valuation) -> bool {
    forall|i: int| 0 <= i < atoms.len() ==> semantics::respects(env, #[trigger] atoms[i], v)
}

/// Worlds that respect the sorts do not clash.
proof fn lemma_no_clash(env: Sorts, atoms: Seq<AtomV>, asg: Seq<bool>, v: Valuation)
    requires
        asg.len() <= atoms.len(),
        agrees(atoms, asg, v),
        fair(env, atoms, v),
    ensures
        !decision::clash(env, atoms, asg),
{
    if decision::clash(env, atoms, asg) {
        let i = choose|i: int|
            0 <= i < asg.len() && #[trigger] decision::clashes_at(env, atoms, asg, i);
        let (name, value) = (atoms[i]->EnumEq_0, atoms[i]->EnumEq_1);
        assert(semantics::atom_holds(atoms[i], v) == asg[i]);
        assert(semantics::respects(env, atoms[i], v));
        if asg[i] {
            if decision::other_value(atoms, asg, name, value) {
                let j = choose|j: int|
                    0 <= j < asg.len() && asg[j] && (#[trigger] atoms[j] matches AtomV::EnumEq(
                        n,
                        w,
                    ) && n == name && w != value);
                assert(semantics::atom_holds(atoms[j], v) == asg[j]);
            } else {
                assert(names::lookup(env, name) is Some);
            }
        } else {
            let values = names::lookup(env, name)->0->values;
            let t = (v.texts)(name);
            assert(values.contains(t));
            lemma_free_none(atoms, asg, name, values, 0, values.index_of(t));
            let a = AtomV::EnumEq(name, t);
            assert(atoms[atoms.index_of(a)] == a);
            assert(semantics::atom_holds(atoms[atoms.index_of(a)], v));
        }
    }
}

proof fn lemma_free_none(
    atoms: Seq<AtomV>,
    asg: Seq<bool>,
    name: Seq<char>,
    values: Seq<Seq<char>>,
    k: int,
    at: int,
)
    requires
        0 <= k <= at < values.len(),
        decision::free_text(atoms, asg, name, values, k) is None,
    ensures
        decision::assigned_value(atoms, asg, AtomV::EnumEq(name, values[at])) == Some(false),
    decreases at - k,
{
    if k < at {
        lemma_free_none(atoms, asg, name, values, k + 1, at);
    }
}

proof fn lemma_free_some(
    atoms: Seq<AtomV>,
    asg: Seq<bool>,
    name: Seq<char>,
    values: Seq<Seq<char>>,
    k: int,
)
    requires
        0 <= k <= values.len(),
    ensures
        decision::free_text(atoms, asg, name, values, k) matches Some(t) ==> values.contains(t)
            && decision::assigned_value(atoms, asg, AtomV::EnumEq(name, t)) != Some(false),
    decreases values.len() - k,
{
    if k < values.len() {
        if decision::assigned_value(atoms, asg, AtomV::EnumEq(name, values[k])) == Some(false) {
            lemma_free_some(atoms, asg, name, values, k + 1);
        } else {
            assert(values.contains(values[k]));
        }
    }
}

/// Does the variable occur in a comparison?
spec fn compared_by(atoms: Seq<AtomV>, x: Seq<char>) -> bool {
    exists|i: int|
        0 <= i < atoms.len() && (form(#[trigger] atoms[i]) matches Some(l) && names::named(
            l.terms,
            x,
        ))
}

/// What the theory answers about an assignment is right.
proof fn lemma_theory(
    env: Sorts,
    atoms: Seq<AtomV>,
    asg: Seq<bool>,
    used: nat,
    lim: Limits,
)
    requires
        asg.len() <= atoms.len(),
        forall|i: int| 0 <= i < atoms.len() ==> logic::atom_wf(#[trigger] atoms[i]),
    ensures
        decision::theory_check(env, atoms, asg, used, lim).0 is Infeasible ==> forall|v: Valuation|
            #[trigger] agrees(atoms, asg, v) ==> !fair(env, atoms, v),
        decision::theory_check(env, atoms, asg, used, lim).0 matches FeasibleV::Feasible(m)
            ==> solved(env, atoms, asg, m),
{
    let zero = |x: Seq<char>| 0 as real;
    if decision::theory_check(env, atoms, asg, used, lim).0 is Infeasible {
        assert forall|v: Valuation| #[trigger] agrees(atoms, asg, v) implies !fair(
            env,
            atoms,
            v,
        ) by {
            if fair(env, atoms, v) {
                let f = |x: Seq<char>|
                    if compared_by(atoms, x) {
                        (v.nums)(x)
                    } else {
                        0 as real
                    };
                lemma_no_clash(env, atoms, asg, v);
                lemma_numeric(atoms, asg, f);
                let cs = decision::numeric(atoms, asg)->0;
                theory::lemma_branching(env, cs, used, lim.cons, lim.branches);
                assert(theory::whole_where_due(env, f)) by {
                    assert forall|x: Seq<char>| #[trigger] theory::is_int(
                        env,
                        x,
                    ) implies num::is_whole(f(x)) by {
                        if compared_by(atoms, x) {
                            let i = choose|i: int|
                                0 <= i < atoms.len() && (form(#[trigger] atoms[i]) matches Some(l)
                                    && names::named(l.terms, x));
                            assert(semantics::respects(env, atoms[i], v));
                        } else {
                            assert(f(x) == num::embed(0));
                        }
                    }
                }
                assert(theory::cons_hold(cs, f)) by {
                    assert forall|i: int|
                        0 <= i < asg.len() && form(#[trigger] atoms[i]) is Some implies num_holds(
                        atoms[i],
                        f,
                    ) == asg[i] by {
                        assert(semantics::atom_holds(atoms[i], v) == asg[i]);
                        let terms = form(atoms[i])->0.terms;
                        assert forall|x: Seq<char>| #[trigger] names::named(terms, x) implies f(x)
                            == (v.nums)(x) by {
                            assert(compared_by(atoms, x));
                        }
                        linear::lemma_value_agree(terms, f, v.nums);
                    }
                }
            }
        }
    }
    if let FeasibleV::Feasible(m) = decision::theory_check(env, atoms, asg, used, lim).0 {
        let cs = decision::numeric(atoms, asg)->0;
        lemma_numeric(atoms, asg, theory::assigned(m));
        theory::lemma_branching(env, cs, used, lim.cons, lim.branches);
    }
}

/// Are the values a solution of what the assignment states?
pub open spec fn solved(env: Sorts, atoms: Seq<AtomV>, asg: Seq<bool>, m: Terms) -> bool {
    &&& !decision::clash(env, atoms, asg)
    &&& theory::model_wf(m)
    &&& theory::whole_where_due(env, theory::assigned(m))
    &&& decision::numeric(atoms, asg) matches Some(cs) && theory::cons_hold(
        cs,
        theory::assigned(m),
    )
}

/// What a search answers is right.
proof fn lemma_search(
    env: Sorts,
    cs: Seq<ExprV>,
    atoms: Seq<AtomV>,
    asg: Seq<bool>,
    nodes: nat,
    branches: nat,
    lim: Limits,
)
    requires
        asg.len() <= atoms.len(),
        forall|i: int| 0 <= i < atoms.len() ==> logic::atom_wf(#[trigger] atoms[i]),
        forall|a: AtomV| #[trigger] logic::atoms_of_all(cs).contains(a) ==> atoms.contains(a),
    ensures
        ({
            let r = decision::search(env, cs, atoms, asg, nodes, branches, lim);
            &&& r.answer is Nothing ==> forall|v: Valuation| #[trigger]
                agrees(atoms, asg, v) ==> !(fair(env, atoms, v) && semantics::all_hold(cs, v))
            &&& r.answer matches AnswerV::Found(found, m) ==> found.len() <= atoms.len()
                && decision::confirmed(cs, atoms, found) && solved(env, atoms, found, m)
        }),
    decreases atoms.len() - asg.len(),
{
    let r = decision::search(env, cs, atoms, asg, nodes, branches, lim);
    if nodes >= lim.nodes {
    } else if decision::refuted(cs, atoms, asg) {
        assert forall|v: Valuation| #[trigger] agrees(atoms, asg, v) implies !(fair(env, atoms, v)
            && semantics::all_hold(cs, v)) by {
            let i = choose|i: int|
                0 <= i < cs.len() && decision::evaluated(#[trigger] cs[i], atoms, asg) == Some(
                    false,
                );
            lemma_evaluated(cs[i], atoms, asg, v);
            assert(!semantics::holds(cs[i], v));
        }
    } else {
        lemma_theory(env, atoms, asg, branches, lim);
        let (t, b) = decision::theory_check(env, atoms, asg, branches, lim);
        if t is Feasible && !decision::confirmed(cs, atoms, asg) {
            if asg.len() >= atoms.len() {
                assert forall|i: int| 0 <= i < cs.len() implies decision::evaluated(
                    #[trigger] cs[i],
                    atoms,
                    asg,
                ) == Some(true) by {
                    assert forall|a: AtomV| #[trigger]
                        logic::atoms_of(cs[i]).contains(a) implies atoms.contains(a) by {
                        semantics::lemma_atoms_of_item(cs, i, a);
                    }
                    lemma_total(cs[i], atoms, asg);
                }
            } else {
                lemma_search(env, cs, atoms, asg.push(true), nodes + 1, b, lim);
                let r1 = decision::search(env, cs, atoms, asg.push(true), nodes + 1, b, lim);
                if r1.answer is Nothing {
                    lemma_search(env, cs, atoms, asg.push(false), r1.nodes, r1.branches, lim);
                    if r.answer is Nothing {
                        assert forall|v: Valuation| #[trigger]
                            agrees(atoms, asg, v) implies !(fair(env, atoms, v)
                            && semantics::all_hold(cs, v)) by {
                            let truth = semantics::atom_holds(atoms[asg.len() as int], v);
                            let more = asg.push(truth);
                            assert(agrees(atoms, more, v)) by {
                                assert forall|i: int| 0 <= i < more.len() implies
                                    semantics::atom_holds(#[trigger] atoms[i], v) == more[i] by {
                                    if i < asg.len() {
                                        assert(more[i] == asg[i]);
                                    }
                                }
                            }
                        }
                    }
                }
            }
        }
    }
}

/// Unsatisfiable means that: where the decision is `Unsat`, no world satisfies the
/// formulas.
pub proof fn lemma_unsat(env: Sorts, cs: Seq<ExprV>, lim: Limits)
    requires
        atoms_wf(cs),
        decision::decision(env, cs, lim) is Unsat,
    ensures
        !semantics::satisfiable(env, cs),
{
    let atoms = decision::distinct(logic::atoms_of_all(cs));
    lemma_table(cs);
    lemma_search(env, cs, atoms, Seq::empty(), 0, 0, lim);
    assert forall|v: Valuation| !semantics::satisfies(env, cs, v) by {
        assert(agrees(atoms, Seq::empty(), v));
        if semantics::satisfies(env, cs, v) {
            assert forall|i: int| 0 <= i < atoms.len() implies semantics::respects(
                env,
                #[trigger] atoms[i],
                v,
            ) by {
                assert(atoms.contains(atoms[i]));
                assert(logic::atoms_of_all(cs).contains(atoms[i]));
            }
        }
    }
}

/// The atoms of the formulas, each once, are in normal form and complete.
proof fn lemma_table(cs: Seq<ExprV>)
    requires
        atoms_wf(cs),
    ensures
        ({
            let atoms = decision::distinct(logic::atoms_of_all(cs));
            &&& atoms.no_duplicates()
            &&& forall|i: int| 0 <= i < atoms.len() ==> logic::atom_wf(#[trigger] atoms[i])
            &&& forall|a: AtomV| #[trigger]
                logic::atoms_of_all(cs).contains(a) <==> atoms.contains(a)
        }),
{
    let all = logic::atoms_of_all(cs);
    let atoms = decision::distinct(all);
    lemma_distinct(all);
    assert forall|i: int| 0 <= i < atoms.len() implies logic::atom_wf(#[trigger] atoms[i]) by {
        assert(atoms.contains(atoms[i]));
    }
}

// ── Models ──────────────────────────────────────────────────────────────────────

/// Is the atom a test on variables of the right sort?
pub open spec fn atom_sorted(env: Sorts, a: AtomV) -> bool {
    match a {
        AtomV::Bool(name) => names::lookup(env, name) == Some(VarTypeV::Bool),
        AtomV::EnumEq(name, _) => names::lookup(env, name) matches Some(VarTypeV::Enum { .. }),
        AtomV::Le(l) => form_sorted(env, l),
        AtomV::Lt(l) => form_sorted(env, l),
    }
}

/// Are the variables of the form numeric?
pub open spec fn form_sorted(env: Sorts, l: linear::LinV) -> bool {
    forall|x: Seq<char>| #[trigger]
        names::named(l.terms, x) ==> (names::lookup(env, x) == Some(VarTypeV::Int)
            || names::lookup(env, x) == Some(VarTypeV::Real))
}

/// Are the formulas over declared variables, each used as its sort says?
pub open spec fn well_sorted(env: Sorts, cs: Seq<ExprV>) -> bool {
    forall|a: AtomV| #[trigger] logic::atoms_of_all(cs).contains(a) ==> atom_sorted(env, a)
}

/// Does every enum that the atom tests have a value?
pub open spec fn atom_inhabited(env: Sorts, a: AtomV) -> bool {
    a matches AtomV::EnumEq(name, _) ==> (names::lookup(env, name) matches Some(
        VarTypeV::Enum { values },
    ) ==> values.len() > 0)
}

/// Does every enum that the formulas test have a value?
pub open spec fn inhabited(env: Sorts, cs: Seq<ExprV>) -> bool {
    forall|a: AtomV| #[trigger] logic::atoms_of_all(cs).contains(a) ==> atom_inhabited(env, a)
}

/// What holds of the atoms of formulas holds of those of some of them.
pub proof fn lemma_fewer(env: Sorts, more: Seq<ExprV>, less: Seq<ExprV>)
    requires
        semantics::covers(more, less),
    ensures
        well_sorted(env, more) ==> well_sorted(env, less),
        inhabited(env, more) ==> inhabited(env, less),
        atoms_wf(more) ==> atoms_wf(less),
{
    assert forall|a: AtomV| #[trigger]
        logic::atoms_of_all(less).contains(a) implies logic::atoms_of_all(more).contains(a) by {
        semantics::lemma_covered_atoms(more, less, a);
    }
}

/// What holds of the atoms of formulas and a claim holds without the claim, and with its
/// negation.
pub proof fn lemma_claim_parts(env: Sorts, cs: Seq<ExprV>, claim: ExprV)
    ensures
        well_sorted(env, cs.push(claim)) ==> well_sorted(env, cs) && well_sorted(
            env,
            cs.push(logic::negation(claim)),
        ),
        inhabited(env, cs.push(claim)) ==> inhabited(env, cs) && inhabited(
            env,
            cs.push(logic::negation(claim)),
        ),
{
    let no = logic::negation(claim);
    let (a, b) = (cs.push(claim), cs.push(no));
    assert(semantics::covers(a, cs)) by {
        assert forall|e: ExprV| #[trigger] cs.contains(e) implies a.contains(e) by {
            assert(a[cs.index_of(e)] == e);
        }
    }
    lemma_fewer(env, a, cs);
    semantics::lemma_negation_atoms(claim);
    assert(a.drop_last() =~= cs);
    assert(b.drop_last() =~= cs);
    assert(logic::atoms_of_all(a) == logic::atoms_of_all(b));
}

/// Is that the value of the variable in the world?
pub open spec fn value_agrees(x: ValueV, v: Valuation, name: Seq<char>) -> bool {
    match x {
        ValueV::Bool(b) => (v.bools)(name) == b,
        ValueV::Text(t) => (v.texts)(name) == t,
        ValueV::Number(s) => (v.nums)(name) == reading::reading(s),
    }
}

/// Does the world give the variables the values that the model gives them?
pub open spec fn model_agrees(m: Map<Seq<char>, ValueV>, v: Valuation) -> bool {
    forall|x: Seq<char>| #[trigger] m.dom().contains(x) ==> value_agrees(m[x], v, x)
}

/// The variables of an atom.
pub open spec fn atom_mentions(a: AtomV, x: Seq<char>) -> bool {
    match a {
        AtomV::Bool(name) => x == name,
        AtomV::EnumEq(name, _) => x == name,
        AtomV::Le(l) => names::named(l.terms, x),
        AtomV::Lt(l) => names::named(l.terms, x),
    }
}

proof fn lemma_keys(t: Terms, x: Seq<char>)
    ensures
        logic::keys_of(t).contains(x) <==> names::named(t, x),
{
    let k = logic::keys_of(t);
    if names::named(t, x) {
        let i = names::place(t, x);
        assert(t[i].0 == x);
        assert(k[i] == x);
    }
    if k.contains(x) {
        let i = k.index_of(x);
        assert(t[i].0 == x);
    }
}

/// A formula mentions the variables of its atoms.
proof fn lemma_mentions(e: ExprV, a: AtomV, x: Seq<char>)
    requires
        logic::atoms_of(e).contains(a),
        atom_mentions(a, x),
    ensures
        logic::vars_of(e).contains(x),
    decreases e,
{
    match e {
        ExprV::Not(inner) => {
            lemma_mentions(*inner, a, x);
        },
        ExprV::And(items) => {
            lemma_mentions_items(items, a, x);
        },
        ExprV::Or(items) => {
            lemma_mentions_items(items, a, x);
        },
        ExprV::Const(_) => {},
        ExprV::Le(l) => {
            assert(logic::atoms_of(e)[0] == AtomV::Le(l));
            lemma_keys(l.terms, x);
        },
        ExprV::Lt(l) => {
            assert(logic::atoms_of(e)[0] == AtomV::Lt(l));
            lemma_keys(l.terms, x);
        },
        ExprV::Bool(name) => {
            assert(logic::atoms_of(e)[0] == AtomV::Bool(name));
            assert(logic::vars_of(e)[0] == name);
        },
        ExprV::EnumEq(name, value) => {
            assert(logic::atoms_of(e)[0] == AtomV::EnumEq(name, value));
            assert(logic::vars_of(e)[0] == name);
        },
    }
}

/// Formulas mention the variables of their atoms.
pub proof fn lemma_mentions_items(items: Seq<ExprV>, a: AtomV, x: Seq<char>)
    requires
        logic::atoms_of_all(items).contains(a),
        atom_mentions(a, x),
    ensures
        logic::vars_of_all(items).contains(x),
    decreases items,
{
    if items.len() > 0 {
        semantics::lemma_atoms_of_last(items);
        let p = logic::vars_of_all(items.drop_last());
        let q = logic::vars_of(items.last());
        if logic::atoms_of_all(items.drop_last()).contains(a) {
            lemma_mentions_items(items.drop_last(), a, x);
            assert((p + q)[p.index_of(x)] == x);
        } else {
            lemma_mentions(items.last(), a, x);
            assert((p + q)[p.len() + q.index_of(x)] == x);
        }
    }
}

proof fn lemma_true_text(atoms: Seq<AtomV>, asg: Seq<bool>, name: Seq<char>, i: int)
    requires
        0 <= i <= asg.len(),
    ensures
        decision::true_text(atoms, asg, name, i) matches Some(t) ==> exists|k: int|
            i <= k < asg.len() && asg[k] && #[trigger] atoms[k] == AtomV::EnumEq(name, t),
        decision::true_text(atoms, asg, name, i) is None ==> forall|k: int|
            i <= k < asg.len() && asg[k] ==> !(#[trigger] atoms[k] matches AtomV::EnumEq(n, _)
                && n == name),
    decreases asg.len() - i,
{
    if i < asg.len() {
        lemma_true_text(atoms, asg, name, i + 1);
        match atoms[i] {
            AtomV::EnumEq(n, w) => {
                if n == name && asg[i] {
                    assert(atoms[i] == AtomV::EnumEq(name, w));
                }
            },
            _ => {},
        }
    }
}

/// A text that is longer than every text that the atoms test for.
spec fn untested(atoms: Seq<AtomV>) -> Seq<char>
    decreases atoms.len(),
{
    if atoms.len() == 0 {
        seq![' ']
    } else {
        match atoms.last() {
            AtomV::EnumEq(_, w) => untested(atoms.drop_last()) + w,
            _ => untested(atoms.drop_last()),
        }
    }
}

proof fn lemma_untested(atoms: Seq<AtomV>)
    ensures
        untested(atoms).len() > 0,
        forall|i: int|
            0 <= i < atoms.len() ==> (#[trigger] atoms[i] matches AtomV::EnumEq(_, w) ==> w.len()
                < untested(atoms).len()),
    decreases atoms.len(),
{
    if atoms.len() > 0 {
        let init = atoms.drop_last();
        lemma_untested(init);
        assert forall|i: int| 0 <= i < atoms.len() implies (#[trigger] atoms[i] matches AtomV::EnumEq(
            _,
            w,
        ) ==> w.len() < untested(atoms).len()) by {
            if i < init.len() {
                assert(init[i] == atoms[i]);
            }
        }
    }
}

/// A text for the variable that fits the assigned atoms.
spec fn fitting_text(env: Sorts, atoms: Seq<AtomV>, asg: Seq<bool>, x: Seq<char>) -> Seq<char> {
    match decision::true_text(atoms, asg, x, 0) {
        Some(t) => t,
        None => match names::lookup(env, x) {
            Some(VarTypeV::Enum { values }) => match decision::free_text(
                atoms,
                asg,
                x,
                values,
                0,
            ) {
                Some(t) => t,
                None => values[0],
            },
            _ => untested(atoms),
        },
    }
}

/// A text that fits makes exactly the atoms true that are assigned so, and is a declared
/// value where the variable has any.
proof fn lemma_fitting_text(env: Sorts, atoms: Seq<AtomV>, asg: Seq<bool>, x: Seq<char>)
    requires
        asg.len() <= atoms.len(),
        atoms.no_duplicates(),
        !decision::clash(env, atoms, asg),
    ensures
        names::lookup(env, x) matches Some(VarTypeV::Enum { values }) ==> values.len() > 0
            ==> values.contains(fitting_text(env, atoms, asg, x)),
        forall|i: int|
            0 <= i < asg.len() ==> (#[trigger] atoms[i] matches AtomV::EnumEq(n, w) ==> (n == x
                ==> asg[i] == (fitting_text(env, atoms, asg, x) == w))),
{
    let f = fitting_text(env, atoms, asg, x);
    lemma_true_text(atoms, asg, x, 0);
    lemma_untested(atoms);
    if let Some(t) = decision::true_text(atoms, asg, x, 0) {
        let k = choose|k: int|
            0 <= k < asg.len() && asg[k] && #[trigger] atoms[k] == AtomV::EnumEq(x, t);
        assert(!decision::clashes_at(env, atoms, asg, k));
        assert forall|i: int| 0 <= i < asg.len() implies (#[trigger] atoms[i] matches AtomV::EnumEq(
            n,
            w,
        ) ==> (n == x ==> asg[i] == (f == w))) by {
            if let AtomV::EnumEq(n, w) = atoms[i] {
                if n == x && asg[i] && w != t {
                    assert(decision::other_value(atoms, asg, x, t));
                }
                if n == x && w == t {
                    assert(i == k);
                }
            }
        }
    } else {
        if let Some(VarTypeV::Enum { values }) = names::lookup(env, x) {
            lemma_free_some(atoms, asg, x, values, 0);
            if values.len() > 0 {
                assert(values.contains(values[0]));
            }
        }
        assert forall|i: int| 0 <= i < asg.len() implies (#[trigger] atoms[i] matches AtomV::EnumEq(
            n,
            w,
        ) ==> (n == x ==> asg[i] == (f == w))) by {
            if let AtomV::EnumEq(n, w) = atoms[i] {
                if n == x {
                    assert(!decision::clashes_at(env, atoms, asg, i));
                    assert(atoms.contains(atoms[i]));
                    assert(atoms.index_of(atoms[i]) == i);
                }
            }
        }
    }
}

/// The world of an assignment and a solution of what it states.
spec fn found_world(env: Sorts, atoms: Seq<AtomV>, asg: Seq<bool>, m: Terms) -> Valuation {
    Valuation {
        bools: |x: Seq<char>| decision::assigned_value(atoms, asg, AtomV::Bool(x)) == Some(true),
        texts: |x: Seq<char>| fitting_text(env, atoms, asg, x),
        nums: theory::assigned(m),
    }
}

/// The world of an assignment gives the assigned atoms their truth values, and it respects
/// the sorts of what the atoms test.
proof fn lemma_found_world(env: Sorts, atoms: Seq<AtomV>, asg: Seq<bool>, m: Terms)
    requires
        asg.len() <= atoms.len(),
        atoms.no_duplicates(),
        forall|i: int| 0 <= i < atoms.len() ==> logic::atom_wf(#[trigger] atoms[i]),
        forall|i: int| 0 <= i < atoms.len() ==> atom_inhabited(env, #[trigger] atoms[i]),
        solved(env, atoms, asg, m),
    ensures
        agrees(atoms, asg, found_world(env, atoms, asg, m)),
        fair(env, atoms, found_world(env, atoms, asg, m)),
{
    let w = found_world(env, atoms, asg, m);
    lemma_numeric(atoms, asg, theory::assigned(m));
    assert forall|i: int| 0 <= i < asg.len() implies semantics::atom_holds(#[trigger] atoms[i], w)
        == asg[i] by {
        match atoms[i] {
            AtomV::Bool(x) => {
                assert(atoms.contains(atoms[i]));
                assert(atoms.index_of(atoms[i]) == i);
            },
            AtomV::EnumEq(x, t) => {
                lemma_fitting_text(env, atoms, asg, x);
            },
            _ => {
                assert(form(atoms[i]) is Some);
            },
        }
    }
    assert forall|i: int| 0 <= i < atoms.len() implies semantics::respects(
        env,
        #[trigger] atoms[i],
        w,
    ) by {
        assert(atom_inhabited(env, atoms[i]));
        match atoms[i] {
            AtomV::Bool(_) => {},
            AtomV::EnumEq(x, _) => {
                lemma_fitting_text(env, atoms, asg, x);
            },
            AtomV::Le(l) => {
                lemma_due(env, l, w);
            },
            AtomV::Lt(l) => {
                lemma_due(env, l, w);
            },
        }
    }
}

proof fn lemma_due(env: Sorts, l: linear::LinV, v: Valuation)
    requires
        theory::whole_where_due(env, v.nums),
    ensures
        semantics::whole_where_int(env, l, v),
{
    assert forall|x: Seq<char>| #[trigger]
        names::named(l.terms, x) && names::lookup(env, x) == Some(
            VarTypeV::Int,
        ) implies num::is_whole((v.nums)(x)) by {
        assert(theory::is_int(env, x));
    }
}

/// What a search found, together with what is known of the atoms.
spec fn found(env: Sorts, cs: Seq<ExprV>, atoms: Seq<AtomV>, asg: Seq<bool>, m: Terms) -> bool {
    &&& asg.len() <= atoms.len()
    &&& solved(env, atoms, asg, m)
    &&& atoms.no_duplicates()
    &&& well_sorted(env, cs)
    &&& forall|i: int| 0 <= i < atoms.len() ==> logic::atom_wf(#[trigger] atoms[i])
    &&& forall|i: int| 0 <= i < atoms.len() ==> logic::atoms_of_all(cs).contains(#[trigger] atoms[i])
    &&& forall|x: Seq<char>| #[trigger]
        names::named(m, x) ==> exists|i: int|
            0 <= i < asg.len() && (form(#[trigger] atoms[i]) matches Some(l) && names::named(
                l.terms,
                x,
            ))
}

/// A numeric variable has a solved value or none at all.
proof fn lemma_value_numeric(
    env: Sorts,
    cs: Seq<ExprV>,
    atoms: Seq<AtomV>,
    asg: Seq<bool>,
    m: Terms,
    x: Seq<char>,
)
    requires
        found(env, cs, atoms, asg, m),
        names::lookup(env, x) == Some(VarTypeV::Int) || names::lookup(env, x) == Some(
            VarTypeV::Real,
        ),
    ensures
        decision::value_for(env, atoms, asg, m, x) matches Some(ValueV::Number(s))
            && reading::reading(s) == theory::assigned(m)(x),
{
    match names::lookup(m, x) {
        Some(r) => {
            theory::lemma_lookup_wf(m, x);
            reading::lemma_reading(r);
        },
        None => {
            lemma_true_text(atoms, asg, x, 0);
            if decision::true_text(atoms, asg, x, 0) is Some {
                let t = decision::true_text(atoms, asg, x, 0)->0;
                let k = choose|k: int|
                    0 <= k < asg.len() && asg[k] && #[trigger] atoms[k] == AtomV::EnumEq(x, t);
                assert(logic::atoms_of_all(cs).contains(atoms[k]));
                assert(atom_sorted(env, atoms[k]));
            }
            Rat::lemma_whole(0);
            reading::lemma_reading(Rat::of(0, 1));
        },
    }
}

/// A variable that is not numeric has no solved value.
proof fn lemma_not_solved(
    env: Sorts,
    cs: Seq<ExprV>,
    atoms: Seq<AtomV>,
    asg: Seq<bool>,
    m: Terms,
    x: Seq<char>,
)
    requires
        found(env, cs, atoms, asg, m),
        names::lookup(env, x) matches Some(VarTypeV::Enum { .. }) || names::lookup(env, x) == Some(
            VarTypeV::Bool,
        ),
    ensures
        names::lookup(m, x) is None,
{
    if names::named(m, x) {
        let i = choose|i: int|
            0 <= i < asg.len() && (form(#[trigger] atoms[i]) matches Some(l) && names::named(
                l.terms,
                x,
            ));
        assert(logic::atoms_of_all(cs).contains(atoms[i]));
        assert(atom_sorted(env, atoms[i]));
        let l = form(atoms[i])->0;
        assert(names::named(l.terms, x));
    }
}

/// An enum variable that an assigned atom tests has an allowed value that fits the
/// assigned atoms.
proof fn lemma_value_enum(
    env: Sorts,
    cs: Seq<ExprV>,
    atoms: Seq<AtomV>,
    asg: Seq<bool>,
    m: Terms,
    x: Seq<char>,
)
    requires
        found(env, cs, atoms, asg, m),
        names::lookup(env, x) matches Some(VarTypeV::Enum { .. }),
    ensures
        decision::value_for(env, atoms, asg, m, x) matches Some(w) ==> {
            &&& w matches ValueV::Text(t) && (names::lookup(env, x)->0->values).contains(t)
            &&& forall|i: int|
                0 <= i < asg.len() && (#[trigger] atoms[i] matches AtomV::EnumEq(n, _) && n == x)
                    ==> asg[i] == (atoms[i] == AtomV::EnumEq(x, w->Text_0))
        },
        decision::value_for(env, atoms, asg, m, x) is None ==> {
            &&& forall|i: int|
                0 <= i < asg.len() ==> !(#[trigger] atoms[i] matches AtomV::EnumEq(n, _) && n == x)
            &&& (names::lookup(env, x)->0->values).len() == 0
        },
{
    let values = names::lookup(env, x)->0->values;
    lemma_not_solved(env, cs, atoms, asg, m, x);
    lemma_true_text(atoms, asg, x, 0);
    match decision::true_text(atoms, asg, x, 0) {
        Some(t) => {
            let k = choose|k: int|
                0 <= k < asg.len() && asg[k] && #[trigger] atoms[k] == AtomV::EnumEq(x, t);
            assert(!decision::clashes_at(env, atoms, asg, k));
            assert(values.contains(t));
            assert forall|i: int|
                0 <= i < asg.len() && (#[trigger] atoms[i] matches AtomV::EnumEq(n, _) && n
                    == x) implies asg[i] == (atoms[i] == AtomV::EnumEq(x, t)) by {
                if asg[i] {
                    if atoms[i] != AtomV::EnumEq(x, t) {
                        assert(decision::other_value(atoms, asg, x, t));
                    }
                } else if atoms[i] == AtomV::EnumEq(x, t) {
                    assert(i == k);
                }
            }
        },
        None => {
            lemma_free_some(atoms, asg, x, values, 0);
            assert forall|i: int|
                0 <= i < asg.len() && (#[trigger] atoms[i] matches AtomV::EnumEq(n, _) && n
                    == x) implies !asg[i] && !decision::exhausted_domain(env, atoms, asg, x) by {
                assert(!decision::clashes_at(env, atoms, asg, i));
            }
            if let Some(t) = decision::free_text(atoms, asg, x, values, 0) {
                let a = AtomV::EnumEq(x, t);
                assert forall|i: int|
                    0 <= i < asg.len() && (#[trigger] atoms[i] matches AtomV::EnumEq(n, _) && n
                        == x) implies asg[i] == (atoms[i] == a) by {
                    if atoms[i] == a {
                        assert(atoms.contains(a));
                        assert(atoms.index_of(a) == i);
                    }
                }
            } else if values.len() > 0 {
                lemma_free_none(atoms, asg, x, values, 0, 0);
                let a = AtomV::EnumEq(x, values[0]);
                let i = atoms.index_of(a);
                assert(atoms[i] == a);
                assert(!decision::clashes_at(env, atoms, asg, i));
            }
        },
    }
}

/// A world with the values of the model gives the assigned atoms their truth values.
proof fn lemma_model_agrees(
    env: Sorts,
    cs: Seq<ExprV>,
    atoms: Seq<AtomV>,
    asg: Seq<bool>,
    m: Terms,
    v: Valuation,
)
    requires
        found(env, cs, atoms, asg, m),
        model_agrees(decision::model_of(env, cs, atoms, asg, m), v),
    ensures
        agrees(atoms, asg, v),
{
    let model = decision::model_of(env, cs, atoms, asg, m);
    assert forall|i: int| 0 <= i < asg.len() implies semantics::atom_holds(#[trigger] atoms[i], v)
        == asg[i] by {
        let a = atoms[i];
        assert(logic::atoms_of_all(cs).contains(a));
        assert(atom_sorted(env, a));
        match a {
            AtomV::Bool(x) => {
                lemma_mentions_items(cs, a, x);
                lemma_not_solved(env, cs, atoms, asg, m, x);
                lemma_true_text(atoms, asg, x, 0);
                if decision::true_text(atoms, asg, x, 0) is Some {
                    let t = decision::true_text(atoms, asg, x, 0)->0;
                    let k = choose|k: int|
                        0 <= k < asg.len() && asg[k] && #[trigger] atoms[k] == AtomV::EnumEq(x, t);
                    assert(logic::atoms_of_all(cs).contains(atoms[k]));
                    assert(atom_sorted(env, atoms[k]));
                }
                assert(atoms.contains(a));
                assert(atoms.index_of(a) == i);
                assert(model.dom().contains(x));
            },
            AtomV::EnumEq(x, w) => {
                lemma_mentions_items(cs, a, x);
                lemma_value_enum(env, cs, atoms, asg, m, x);
                assert(atoms[i] matches AtomV::EnumEq(n, _) && n == x);
                assert(model.dom().contains(x));
            },
            AtomV::Le(l) => {
                lemma_form_agrees(env, cs, atoms, asg, m, v, i, l);
            },
            AtomV::Lt(l) => {
                lemma_form_agrees(env, cs, atoms, asg, m, v, i, l);
            },
        }
    }
}

proof fn lemma_form_agrees(
    env: Sorts,
    cs: Seq<ExprV>,
    atoms: Seq<AtomV>,
    asg: Seq<bool>,
    m: Terms,
    v: Valuation,
    i: int,
    l: linear::LinV,
)
    requires
        found(env, cs, atoms, asg, m),
        model_agrees(decision::model_of(env, cs, atoms, asg, m), v),
        0 <= i < asg.len(),
        atoms[i] == AtomV::Le(l) || atoms[i] == AtomV::Lt(l),
    ensures
        semantics::atom_holds(atoms[i], v) == asg[i],
{
    let model = decision::model_of(env, cs, atoms, asg, m);
    let a = atoms[i];
    let f = theory::assigned(m);
    assert(logic::atoms_of_all(cs).contains(a));
    assert(atom_sorted(env, a));
    assert forall|x: Seq<char>| #[trigger] names::named(l.terms, x) implies (v.nums)(x) == f(x) by {
        lemma_mentions_items(cs, a, x);
        lemma_value_numeric(env, cs, atoms, asg, m, x);
        assert(model.dom().contains(x));
    }
    linear::lemma_value_agree(l.terms, v.nums, f);
    lemma_numeric(atoms, asg, f);
    assert(form(atoms[i]) is Some);
}

/// A declared value of an enum variable.
pub open spec fn some_value(env: Sorts, x: Seq<char>) -> Seq<char> {
    match names::lookup(env, x) {
        Some(VarTypeV::Enum { values }) => values[0],
        _ => Seq::empty(),
    }
}

/// A world with the values of a model.
pub open spec fn world_of(env: Sorts, m: Map<Seq<char>, ValueV>) -> Valuation {
    Valuation {
        bools: |x: Seq<char>| m.dom().contains(x) && m[x] == ValueV::Bool(true),
        texts: |x: Seq<char>|
            if m.dom().contains(x) && m[x] is Text {
                m[x]->Text_0
            } else {
                some_value(env, x)
            },
        nums: |x: Seq<char>|
            if m.dom().contains(x) && m[x] is Number {
                reading::reading(m[x]->Number_0)
            } else {
                0 as real
            },
    }
}

/// A world with the values of a model of formulas respects the sorts of what any claim
/// tests too.
pub proof fn lemma_world_extends(
    env: Sorts,
    cs: Seq<ExprV>,
    claim: ExprV,
    m: Map<Seq<char>, ValueV>,
)
    requires
        well_sorted(env, cs.push(claim)),
        inhabited(env, cs.push(claim)),
        semantics::admissible(env, cs, world_of(env, m)),
        forall|x: Seq<char>| #[trigger]
            m.dom().contains(x) <==> logic::vars_of_all(cs).contains(x),
    ensures
        semantics::admissible(env, cs.push(claim), world_of(env, m)),
{
    let w = world_of(env, m);
    let all = cs.push(claim);
    lemma_claim_parts(env, cs, claim);
    assert forall|a: AtomV| #[trigger]
        logic::atoms_of_all(all).contains(a) implies semantics::respects(env, a, w) by {
        match a {
            AtomV::Bool(_) => {},
            AtomV::EnumEq(x, _) => {
                assert(atom_inhabited(env, a));
                lemma_world_respects(env, cs, m, x);
            },
            AtomV::Le(l) => {
                assert forall|x: Seq<char>| #[trigger]
                    names::named(l.terms, x) && names::lookup(env, x) == Some(
                        VarTypeV::Int,
                    ) implies num::is_whole((w.nums)(x)) by {
                    lemma_world_respects(env, cs, m, x);
                }
            },
            AtomV::Lt(l) => {
                assert forall|x: Seq<char>| #[trigger]
                    names::named(l.terms, x) && names::lookup(env, x) == Some(
                        VarTypeV::Int,
                    ) implies num::is_whole((w.nums)(x)) by {
                    lemma_world_respects(env, cs, m, x);
                }
            },
        }
    }
}

/// In a world with the values of a model of formulas each variable has a value of its
/// sort, whether or not the formulas mention it.
proof fn lemma_world_respects(
    env: Sorts,
    cs: Seq<ExprV>,
    m: Map<Seq<char>, ValueV>,
    x: Seq<char>,
)
    requires
        well_sorted(env, cs),
        semantics::admissible(env, cs, world_of(env, m)),
        m.dom().contains(x) ==> logic::vars_of_all(cs).contains(x),
        names::lookup(env, x) matches Some(VarTypeV::Enum { values }) ==> values.len() > 0,
    ensures
        names::lookup(env, x) == Some(VarTypeV::Int) ==> num::is_whole((world_of(env, m).nums)(x)),
        names::lookup(env, x) matches Some(VarTypeV::Enum { values }) ==> values.contains(
            (world_of(env, m).texts)(x),
        ),
{
    let w = world_of(env, m);
    if m.dom().contains(x) {
        let a = lemma_mentioned_items(cs, x);
        assert(atom_sorted(env, a));
        assert(semantics::respects(env, a, w));
    } else {
        if let Some(VarTypeV::Enum { values }) = names::lookup(env, x) {
            assert(values[0] == some_value(env, x));
            assert(values.contains(values[0]));
        }
        assert((w.nums)(x) == num::embed(0));
    }
}

/// Satisfiable means that: where the decision is `Sat` and the enums that the formulas
/// test have values, a world satisfies the formulas.
pub proof fn lemma_sat_world(env: Sorts, cs: Seq<ExprV>, lim: Limits)
    requires
        atoms_wf(cs),
        inhabited(env, cs),
        decision::decision(env, cs, lim) is Sat,
    ensures
        semantics::satisfiable(env, cs),
{
    let atoms = decision::distinct(logic::atoms_of_all(cs));
    lemma_table(cs);
    lemma_search(env, cs, atoms, Seq::empty(), 0, 0, lim);
    let answer = decision::search(env, cs, atoms, Seq::empty(), 0, 0, lim).answer;
    let (asg, m) = (answer->Found_0, answer->Found_1);
    assert forall|i: int| 0 <= i < atoms.len() implies atom_inhabited(env, #[trigger] atoms[i]) by {
        assert(atoms.contains(atoms[i]));
        assert(logic::atoms_of_all(cs).contains(atoms[i]));
    }
    lemma_found_world(env, atoms, asg, m);
    let w = found_world(env, atoms, asg, m);
    assert forall|i: int| 0 <= i < cs.len() implies #[trigger] semantics::holds(cs[i], w) by {
        lemma_evaluated(cs[i], atoms, asg, w);
        assert(decision::evaluated(cs[i], atoms, asg) == Some(true));
    }
    assert forall|a: AtomV| #[trigger]
        logic::atoms_of_all(cs).contains(a) implies semantics::respects(env, a, w) by {
        assert(atoms.contains(a));
        assert(atoms[atoms.index_of(a)] == a);
    }
    assert(semantics::satisfies(env, cs, w));
}

/// Satisfiable means that: a model that the decision gives has a value for every
/// variable mentioned, every world with those values makes the formulas true, and one
/// of them respects the sorts.
pub proof fn lemma_sat(env: Sorts, cs: Seq<ExprV>, lim: Limits)
    requires
        atoms_wf(cs),
        well_sorted(env, cs),
        decision::decision(env, cs, lim) is Sat,
    ensures
        ({
            let m = decision::decision(env, cs, lim)->Sat_0;
            &&& forall|v: Valuation| #[trigger] model_agrees(m, v) ==> semantics::all_hold(cs, v)
            &&& inhabited(env, cs) ==> {
                &&& semantics::satisfies(env, cs, world_of(env, m))
                &&& model_agrees(m, world_of(env, m))
                &&& forall|x: Seq<char>| #[trigger]
                    m.dom().contains(x) <==> logic::vars_of_all(cs).contains(x)
            }
        }),
{
    let atoms = decision::distinct(logic::atoms_of_all(cs));
    lemma_table(cs);
    lemma_search(env, cs, atoms, Seq::empty(), 0, 0, lim);
    let answer = decision::search(env, cs, atoms, Seq::empty(), 0, 0, lim).answer;
    let (asg, m) = (answer->Found_0, answer->Found_1);
    let model = decision::model_of(env, cs, atoms, asg, m);
    lemma_found_names(env, cs, atoms, Seq::empty(), 0, 0, lim);
    assert(found(env, cs, atoms, asg, m)) by {
        assert forall|i: int| 0 <= i < atoms.len() implies logic::atoms_of_all(cs).contains(
            #[trigger] atoms[i],
        ) by {
            assert(atoms.contains(atoms[i]));
        }
        lemma_numeric(atoms, asg, theory::assigned(m));
    }
    assert forall|v: Valuation| #[trigger] model_agrees(model, v) implies semantics::all_hold(
        cs,
        v,
    ) by {
        lemma_model_agrees(env, cs, atoms, asg, m, v);
        assert forall|i: int| 0 <= i < cs.len() implies #[trigger] semantics::holds(cs[i], v) by {
            lemma_evaluated(cs[i], atoms, asg, v);
            assert(decision::evaluated(cs[i], atoms, asg) == Some(true));
        }
    }
    if inhabited(env, cs) {
        let w = world_of(env, model);
        assert(model_agrees(model, w));
        assert(semantics::admissible(env, cs, w)) by {
            assert forall|a: AtomV| #[trigger]
                logic::atoms_of_all(cs).contains(a) implies semantics::respects(env, a, w) by {
                match a {
                    AtomV::Bool(_) => {},
                    AtomV::EnumEq(x, _) => {
                        assert(atom_inhabited(env, a));
                        if let Some(VarTypeV::Enum { values }) = names::lookup(env, x) {
                            assert(values[0] == some_value(env, x));
                            assert(values.contains(values[0]));
                            if model.dom().contains(x) {
                                lemma_value_enum(env, cs, atoms, asg, m, x);
                            }
                        }
                    },
                    AtomV::Le(l) => {
                        lemma_whole_values(env, cs, atoms, asg, m, l);
                    },
                    AtomV::Lt(l) => {
                        lemma_whole_values(env, cs, atoms, asg, m, l);
                    },
                }
            }
        }
        assert(semantics::satisfies(env, cs, w));
        assert forall|x: Seq<char>| #[trigger] model.dom().contains(x) <==> logic::vars_of_all(
            cs,
        ).contains(x) by {
            if logic::vars_of_all(cs).contains(x) {
                let a = lemma_mentioned_items(cs, x);
                assert(atom_sorted(env, a));
                assert(atom_inhabited(env, a));
                match names::lookup(env, x) {
                    Some(VarTypeV::Enum { values }) => {
                        lemma_value_enum(env, cs, atoms, asg, m, x);
                    },
                    Some(VarTypeV::Bool) => {},
                    _ => {
                        lemma_value_numeric(env, cs, atoms, asg, m, x);
                    },
                }
            }
        }
    }
}

proof fn lemma_whole_values(
    env: Sorts,
    cs: Seq<ExprV>,
    atoms: Seq<AtomV>,
    asg: Seq<bool>,
    m: Terms,
    l: linear::LinV,
)
    requires
        found(env, cs, atoms, asg, m),
    ensures
        semantics::whole_where_int(
            env,
            l,
            world_of(env, decision::model_of(env, cs, atoms, asg, m)),
        ),
{
    let model = decision::model_of(env, cs, atoms, asg, m);
    let w = world_of(env, model);
    assert forall|x: Seq<char>| #[trigger]
        names::named(l.terms, x) && names::lookup(env, x) == Some(
            VarTypeV::Int,
        ) implies num::is_whole((w.nums)(x)) by {
        if model.dom().contains(x) {
            lemma_value_numeric(env, cs, atoms, asg, m, x);
            assert(theory::is_int(env, x));
        } else {
            assert((w.nums)(x) == num::embed(0));
        }
    }
}

/// A variable that a formula mentions is one of an atom.
proof fn lemma_mentioned(e: ExprV, x: Seq<char>) -> (a: AtomV)
    requires
        logic::vars_of(e).contains(x),
    ensures
        logic::atoms_of(e).contains(a),
        atom_mentions(a, x),
    decreases e,
{
    match e {
        ExprV::Not(inner) => lemma_mentioned(*inner, x),
        ExprV::And(items) => lemma_mentioned_items(items, x),
        ExprV::Or(items) => lemma_mentioned_items(items, x),
        ExprV::Const(b) => AtomV::Bool(x),
        ExprV::Le(l) => {
            assert(logic::atoms_of(e)[0] == AtomV::Le(l));
            lemma_keys(l.terms, x);
            AtomV::Le(l)
        },
        ExprV::Lt(l) => {
            assert(logic::atoms_of(e)[0] == AtomV::Lt(l));
            lemma_keys(l.terms, x);
            AtomV::Lt(l)
        },
        ExprV::Bool(name) => {
            assert(logic::atoms_of(e)[0] == AtomV::Bool(name));
            AtomV::Bool(name)
        },
        ExprV::EnumEq(name, value) => {
            assert(logic::atoms_of(e)[0] == AtomV::EnumEq(name, value));
            AtomV::EnumEq(name, value)
        },
    }
}

/// A variable that formulas mention is one of an atom.
pub proof fn lemma_mentioned_items(items: Seq<ExprV>, x: Seq<char>) -> (a: AtomV)
    requires
        logic::vars_of_all(items).contains(x),
    ensures
        logic::atoms_of_all(items).contains(a),
        atom_mentions(a, x),
    decreases items,
{
    let init = items.drop_last();
    let p = logic::vars_of_all(init);
    let q = logic::vars_of(items.last());
    let i = (p + q).index_of(x);
    semantics::lemma_atoms_of_last(items);
    if i < p.len() {
        assert(p[i] == x);
        lemma_mentioned_items(init, x)
    } else {
        assert(q[i - p.len()] == x);
        lemma_mentioned(items.last(), x)
    }
}

/// Does the outcome tell the truth about the formulas? `Unsat` means that no world
/// satisfies them. `Sat` means, where every enum tested has a value, that some world does.
/// Of well-sorted formulas it means that every world with the values of the model makes
/// them true; and where every enum tested has a value, that such a world respects the
/// sorts and that the model has a value for exactly the variables that the formulas
/// mention.
pub open spec fn truthful(env: Sorts, cs: Seq<ExprV>, o: OutcomeV) -> bool {
    match o {
        OutcomeV::Unsat => !semantics::satisfiable(env, cs),
        OutcomeV::Sat(m) => {
            &&& inhabited(env, cs) ==> semantics::satisfiable(env, cs)
            &&& well_sorted(env, cs) ==> {
                &&& forall|v: Valuation| #[trigger]
                    model_agrees(m, v) ==> semantics::all_hold(cs, v)
                &&& inhabited(env, cs) ==> {
                    &&& semantics::satisfies(env, cs, world_of(env, m))
                    &&& model_agrees(m, world_of(env, m))
                    &&& forall|x: Seq<char>| #[trigger]
                        m.dom().contains(x) <==> logic::vars_of_all(cs).contains(x)
                }
            }
        },
        OutcomeV::Unknown(_) => true,
    }
}

/// Decisions tell the truth.
pub proof fn lemma_truthful(env: Sorts, cs: Seq<ExprV>, lim: Limits, o: OutcomeV)
    requires
        atoms_wf(cs),
        decision::answers(env, cs, lim, o),
    ensures
        truthful(env, cs, o),
{
    if o == decision::decision(env, cs, lim) {
        if o is Unsat {
            lemma_unsat(env, cs, lim);
        }
        if o is Sat && inhabited(env, cs) {
            lemma_sat_world(env, cs, lim);
        }
        if o is Sat && well_sorted(env, cs) {
            lemma_sat(env, cs, lim);
        }
    }
}

/// A model that a search found has values for variables of assigned numeric atoms only.
proof fn lemma_found_names(
    env: Sorts,
    cs: Seq<ExprV>,
    atoms: Seq<AtomV>,
    asg: Seq<bool>,
    nodes: nat,
    branches: nat,
    lim: Limits,
)
    requires
        asg.len() <= atoms.len(),
        forall|i: int| 0 <= i < atoms.len() ==> logic::atom_wf(#[trigger] atoms[i]),
    ensures
        decision::search(env, cs, atoms, asg, nodes, branches, lim).answer matches AnswerV::Found(
            f,
            m,
        ) ==> forall|x: Seq<char>| #[trigger]
            names::named(m, x) ==> exists|i: int|
                0 <= i < f.len() && (form(#[trigger] atoms[i]) matches Some(l) && names::named(
                    l.terms,
                    x,
                )),
    decreases atoms.len() - asg.len(),
{
    if nodes < lim.nodes && !decision::refuted(cs, atoms, asg) {
        let (t, b) = decision::theory_check(env, atoms, asg, branches, lim);
        if let FeasibleV::Feasible(m) = t {
            if decision::confirmed(cs, atoms, asg) {
                let ncs = decision::numeric(atoms, asg)->0;
                lemma_numeric(atoms, asg, theory::assigned(m));
                theory::lemma_branching_names(env, ncs, branches, lim.cons, lim.branches);
            } else if asg.len() < atoms.len() {
                lemma_found_names(env, cs, atoms, asg.push(true), nodes + 1, b, lim);
                let r1 = decision::search(env, cs, atoms, asg.push(true), nodes + 1, b, lim);
                if r1.answer is Nothing {
                    lemma_found_names(
                        env,
                        cs,
                        atoms,
                        asg.push(false),
                        r1.nodes,
                        r1.branches,
                        lim,
                    );
                }
            }
        }
    }
}

// ── Completeness without numbers ────────────────────────────────────────────────

/// The nodes of a complete case split on that many atoms.
pub open spec fn split_nodes(n: nat) -> nat
    decreases n,
{
    if n == 0 {
        1
    } else {
        2 * split_nodes((n - 1) as nat) + 1
    }
}

/// Is the atom one on a boolean or an enum variable?
pub open spec fn finite_atom(a: AtomV) -> bool {
    a is Bool || a is EnumEq
}

proof fn lemma_no_numbers(atoms: Seq<AtomV>, asg: Seq<bool>)
    requires
        asg.len() <= atoms.len(),
        forall|i: int| 0 <= i < atoms.len() ==> finite_atom(#[trigger] atoms[i]),
    ensures
        decision::numeric(atoms, asg) == Some(Seq::<ConV>::empty()),
    decreases asg.len(),
{
    if asg.len() > 0 {
        lemma_no_numbers(atoms, asg.drop_last());
        assert(finite_atom(atoms[asg.len() - 1]));
    }
}

proof fn lemma_split_ends(
    env: Sorts,
    cs: Seq<ExprV>,
    atoms: Seq<AtomV>,
    asg: Seq<bool>,
    nodes: nat,
    branches: nat,
    lim: Limits,
)
    requires
        asg.len() <= atoms.len(),
        forall|i: int| 0 <= i < atoms.len() ==> finite_atom(#[trigger] atoms[i]),
        nodes + split_nodes((atoms.len() - asg.len()) as nat) <= lim.nodes,
    ensures
        ({
            let r = decision::search(env, cs, atoms, asg, nodes, branches, lim);
            &&& !(r.answer is Stop)
            &&& r.nodes <= nodes + split_nodes((atoms.len() - asg.len()) as nat)
        }),
    decreases atoms.len() - asg.len(),
{
    lemma_no_numbers(atoms, asg);
    let none = Seq::<ConV>::empty();
    assert(theory::branching(env, none, branches, lim.cons, lim.branches).0
        == FeasibleV::Feasible(Seq::empty())) by {
        assert(theory::listing(none) =~= Seq::empty());
        assert(theory::constants_hold(none));
        assert(theory::elimination(none, theory::listing(none), lim.cons) == FeasibleV::Feasible(
            Seq::empty(),
        ));
    }
    if asg.len() < atoms.len() {
        let (yes, no) = (asg.push(true), asg.push(false));
        let (t, b) = decision::theory_check(env, atoms, asg, branches, lim);
        lemma_split_ends(env, cs, atoms, yes, nodes + 1, b, lim);
        let r = decision::search(env, cs, atoms, yes, nodes + 1, b, lim);
        lemma_split_ends(env, cs, atoms, no, r.nodes, r.branches, lim);
    }
}

/// Without numbers the solver is complete: formulas over boolean and enum variables are
/// decided, and rightly so, where the budget allows a complete case split on their atoms.
pub proof fn lemma_finite_complete(env: Sorts, cs: Seq<ExprV>, lim: Limits)
    requires
        forall|a: AtomV| #[trigger] logic::atoms_of_all(cs).contains(a) ==> finite_atom(a),
        decision::distinct(logic::atoms_of_all(cs)).len() <= lim.atoms,
        split_nodes(decision::distinct(logic::atoms_of_all(cs)).len()) <= lim.nodes,
        inhabited(env, cs),
    ensures
        semantics::satisfiable(env, cs) ==> decision::decision(env, cs, lim) is Sat,
        !semantics::satisfiable(env, cs) ==> decision::decision(env, cs, lim) is Unsat,
{
    let atoms = decision::distinct(logic::atoms_of_all(cs));
    lemma_distinct(logic::atoms_of_all(cs));
    assert forall|i: int| 0 <= i < atoms.len() implies finite_atom(#[trigger] atoms[i]) by {
        assert(atoms.contains(atoms[i]));
    }
    lemma_split_ends(env, cs, atoms, Seq::empty(), 0, 0, lim);
    assert(atoms_wf(cs)) by {
        assert forall|a: AtomV| #[trigger] logic::atoms_of_all(cs).contains(a) implies logic::atom_wf(
            a,
        ) by {
            assert(finite_atom(a));
        }
    }
    let o = decision::decision(env, cs, lim);
    lemma_truthful(env, cs, lim, o);
}

} // verus!
