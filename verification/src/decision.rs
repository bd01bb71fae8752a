//! The decision procedure as mathematics: which answer a formula gets, and why the
//! answer is right.

use vstd::prelude::*;

use crate::linear;
use crate::linear::Terms;
use crate::logic;
use crate::logic::{AtomV, ExprV, VarTypeV};
use crate::names;
use crate::num;
use crate::semantics::Sorts;
use crate::text;
use crate::theory;
use crate::theory::{ConV, FeasibleV, Limit};

verus! {

/// Resource ceilings as numbers.
pub struct Limits {
    pub atoms: nat,
    pub nodes: nat,
    pub cons: nat,
    pub branches: nat,
    pub millis: nat,
}

/// A value in a model.
#[verifier::ext_equal]
pub enum ValueV {
    Bool(bool),
    Text(Seq<char>),
    Number(Seq<char>),
}

/// What the solver decided.
#[verifier::ext_equal]
pub enum OutcomeV {
    Sat(Map<Seq<char>, ValueV>),
    Unsat,
    Unknown(Seq<char>),
}

// ── Three-valued evaluation ─────────────────────────────────────────────────────

/// The truth value of an atom where the first atoms have been assigned.
pub open spec fn assigned_value(atoms: Seq<AtomV>, asg: Seq<bool>, a: AtomV) -> Option<bool> {
    if atoms.contains(a) && atoms.index_of(a) < asg.len() {
        Some(asg[atoms.index_of(a)])
    } else {
        None
    }
}

/// Conjunction of truth values that may be undetermined.
pub open spec fn both(a: Option<bool>, b: Option<bool>) -> Option<bool> {
    if a == Some(false) || b == Some(false) {
        Some(false)
    } else if a == Some(true) && b == Some(true) {
        Some(true)
    } else {
        None
    }
}

/// Disjunction of truth values that may be undetermined.
pub open spec fn either(a: Option<bool>, b: Option<bool>) -> Option<bool> {
    if a == Some(true) || b == Some(true) {
        Some(true)
    } else if a == Some(false) && b == Some(false) {
        Some(false)
    } else {
        None
    }
}

/// Three-valued evaluation of a formula under a partial assignment. `None` means "not
/// yet determined by what has been assigned".
pub open spec fn evaluated(e: ExprV, atoms: Seq<AtomV>, asg: Seq<bool>) -> Option<bool>
    decreases e,
{
    match e {
        ExprV::Const(b) => Some(b),
        ExprV::Bool(name) => assigned_value(atoms, asg, AtomV::Bool(name)),
        ExprV::EnumEq(name, value) => assigned_value(atoms, asg, AtomV::EnumEq(name, value)),
        ExprV::Le(l) => assigned_value(atoms, asg, AtomV::Le(l)),
        ExprV::Lt(l) => assigned_value(atoms, asg, AtomV::Lt(l)),
        ExprV::Not(inner) => match evaluated(*inner, atoms, asg) {
            Some(b) => Some(!b),
            None => None,
        },
        ExprV::And(items) => evaluated_all(items, atoms, asg),
        ExprV::Or(items) => evaluated_any(items, atoms, asg),
    }
}

/// Evaluation of a conjunction.
pub open spec fn evaluated_all(
    items: Seq<ExprV>,
    atoms: Seq<AtomV>,
    asg: Seq<bool>,
) -> Option<bool>
    decreases items,
{
    if items.len() == 0 {
        Some(true)
    } else {
        both(evaluated_all(items.drop_last(), atoms, asg), evaluated(items.last(), atoms, asg))
    }
}

/// Evaluation of a disjunction.
pub open spec fn evaluated_any(
    items: Seq<ExprV>,
    atoms: Seq<AtomV>,
    asg: Seq<bool>,
) -> Option<bool>
    decreases items,
{
    if items.len() == 0 {
        Some(false)
    } else {
        either(evaluated_any(items.drop_last(), atoms, asg), evaluated(items.last(), atoms, asg))
    }
}

// ── Theory ──────────────────────────────────────────────────────────────────────

/// Does the assigned atom at `i` clash with the enum domains or with another one?
pub open spec fn clashes_at(env: Sorts, atoms: Seq<AtomV>, asg: Seq<bool>, i: int) -> bool {
    match atoms[i] {
        AtomV::EnumEq(name, value) => if asg[i] {
            ||| other_value(atoms, asg, name, value)
            ||| outside_domain(env, name, value)
        } else {
            exhausted_domain(env, atoms, asg, name)
        },
        _ => false,
    }
}

/// Is the variable asserted to have a different value?
pub open spec fn other_value(
    atoms: Seq<AtomV>,
    asg: Seq<bool>,
    name: Seq<char>,
    value: Seq<char>,
) -> bool {
    exists|j: int|
        0 <= j < asg.len() && asg[j] && (#[trigger] atoms[j] matches AtomV::EnumEq(n, w) && n
            == name && w != value)
}

/// Is the value not among the declared ones?
pub open spec fn outside_domain(env: Sorts, name: Seq<char>, value: Seq<char>) -> bool {
    names::lookup(env, name) matches Some(VarTypeV::Enum { values }) && !values.contains(value)
}

/// Has every declared value been ruled out?
pub open spec fn exhausted_domain(
    env: Sorts,
    atoms: Seq<AtomV>,
    asg: Seq<bool>,
    name: Seq<char>,
) -> bool {
    names::lookup(env, name) matches Some(VarTypeV::Enum { values }) && free_text(
        atoms,
        asg,
        name,
        values,
        0,
    ) is None
}

/// The first value from `k` on that has not been ruled out.
pub open spec fn free_text(
    atoms: Seq<AtomV>,
    asg: Seq<bool>,
    name: Seq<char>,
    values: Seq<Seq<char>>,
    k: int,
) -> Option<Seq<char>>
    decreases values.len() - k,
{
    if k >= values.len() {
        None
    } else if assigned_value(atoms, asg, AtomV::EnumEq(name, values[k])) == Some(false) {
        free_text(atoms, asg, name, values, k + 1)
    } else {
        Some(values[k])
    }
}

/// Do the assigned atoms contradict the enum domains?
pub open spec fn clash(env: Sorts, atoms: Seq<AtomV>, asg: Seq<bool>) -> bool {
    exists|i: int| 0 <= i < asg.len() && #[trigger] clashes_at(env, atoms, asg, i)
}

/// The inequality that an assigned atom states. `Some(None)` where it states none,
/// `None` where negating it overflows.
pub open spec fn stated(a: AtomV, b: bool) -> Option<Option<ConV>> {
    match a {
        AtomV::Le(l) => if b {
            Some(Some(ConV { lin: l, strict: false }))
        } else {
            match linear::opposite(l) {
                Some(lin) => Some(Some(ConV { lin, strict: true })),
                None => None,
            }
        },
        AtomV::Lt(l) => if b {
            Some(Some(ConV { lin: l, strict: true }))
        } else {
            match linear::opposite(l) {
                Some(lin) => Some(Some(ConV { lin, strict: false })),
                None => None,
            }
        },
        _ => Some(None),
    }
}

/// The inequalities that the assigned atoms state.
pub open spec fn numeric(atoms: Seq<AtomV>, asg: Seq<bool>) -> Option<Seq<ConV>>
    decreases asg.len(),
{
    if asg.len() == 0 {
        Some(Seq::empty())
    } else {
        match (numeric(atoms, asg.drop_last()), stated(atoms[asg.len() - 1], asg.last())) {
            (Some(front), Some(Some(c))) => Some(front.push(c)),
            (Some(front), Some(None)) => Some(front),
            _ => None,
        }
    }
}

/// Check the assigned atoms against the enum domains and the linear arithmetic.
pub open spec fn theory_check(
    env: Sorts,
    atoms: Seq<AtomV>,
    asg: Seq<bool>,
    used: nat,
    lim: Limits,
) -> (FeasibleV, nat) {
    if clash(env, atoms, asg) {
        (FeasibleV::Infeasible, used)
    } else {
        match numeric(atoms, asg) {
            None => (FeasibleV::Stop(Limit::Overflow), used),
            Some(cs) => theory::branching(env, cs, used, lim.cons, lim.branches),
        }
    }
}

// ── Search ──────────────────────────────────────────────────────────────────────

/// What a search ends with.
pub enum AnswerV {
    /// These truth values of the first atoms and these numbers make everything true.
    Found(Seq<bool>, Terms),
    /// Nothing does.
    Nothing,
    /// Something ran out first.
    Stop(Limit),
}

/// The answer of a search, with the nodes and branchings counted up to then.
pub struct SearchV {
    pub answer: AnswerV,
    pub nodes: nat,
    pub branches: nat,
}

/// Is some formula false under the assignment?
pub open spec fn refuted(cs: Seq<ExprV>, atoms: Seq<AtomV>, asg: Seq<bool>) -> bool {
    exists|i: int| 0 <= i < cs.len() && evaluated(#[trigger] cs[i], atoms, asg) == Some(false)
}

/// Are all the formulas true under the assignment?
pub open spec fn confirmed(cs: Seq<ExprV>, atoms: Seq<AtomV>, asg: Seq<bool>) -> bool {
    forall|i: int| 0 <= i < cs.len() ==> evaluated(#[trigger] cs[i], atoms, asg) == Some(true)
}

/// Case-split on the atoms in order, true before false.
pub open spec fn search(
    env: Sorts,
    cs: Seq<ExprV>,
    atoms: Seq<AtomV>,
    asg: Seq<bool>,
    nodes: nat,
    branches: nat,
    lim: Limits,
) -> SearchV
    decreases atoms.len() - asg.len(),
{
    if nodes >= lim.nodes {
        SearchV { answer: AnswerV::Stop(Limit::Nodes), nodes, branches }
    } else if refuted(cs, atoms, asg) {
        SearchV { answer: AnswerV::Nothing, nodes: nodes + 1, branches }
    } else {
        let (t, b) = theory_check(env, atoms, asg, branches, lim);
        match t {
            FeasibleV::Infeasible => SearchV {
                answer: AnswerV::Nothing,
                nodes: nodes + 1,
                branches: b,
            },
            FeasibleV::Stop(l) => SearchV {
                answer: AnswerV::Stop(l),
                nodes: nodes + 1,
                branches: b,
            },
            FeasibleV::Feasible(m) => if confirmed(cs, atoms, asg) {
                SearchV { answer: AnswerV::Found(asg, m), nodes: nodes + 1, branches: b }
            } else if asg.len() >= atoms.len() {
                SearchV { answer: AnswerV::Nothing, nodes: nodes + 1, branches: b }
            } else {
                let r = search(env, cs, atoms, asg.push(true), nodes + 1, b, lim);
                if r.answer is Nothing {
                    search(env, cs, atoms, asg.push(false), r.nodes, r.branches, lim)
                } else {
                    r
                }
            },
        }
    }
}

/// The items of a list without repetitions.
pub open spec fn distinct(s: Seq<AtomV>) -> Seq<AtomV>
    decreases s.len(),
{
    if s.len() == 0 {
        s
    } else {
        let front = distinct(s.drop_last());
        if front.contains(s.last()) {
            front
        } else {
            front.push(s.last())
        }
    }
}

// ── Models ──────────────────────────────────────────────────────────────────────

/// The value that a variable is asserted to have, from the atom at `i` on.
pub open spec fn true_text(
    atoms: Seq<AtomV>,
    asg: Seq<bool>,
    name: Seq<char>,
    i: int,
) -> Option<Seq<char>>
    decreases asg.len() - i,
{
    if i >= asg.len() {
        None
    } else {
        match atoms[i] {
            AtomV::EnumEq(n, w) => if n == name && asg[i] {
                Some(w)
            } else {
                true_text(atoms, asg, name, i + 1)
            },
            _ => true_text(atoms, asg, name, i + 1),
        }
    }
}

/// The value of a variable in a model: what was assigned or solved for, and where that
/// leaves it open a value of its sort.
pub open spec fn value_for(
    env: Sorts,
    atoms: Seq<AtomV>,
    asg: Seq<bool>,
    m: Terms,
    x: Seq<char>,
) -> Option<ValueV> {
    match names::lookup(m, x) {
        Some(r) => Some(ValueV::Number(num::display(r.n(), r.d()))),
        None => match true_text(atoms, asg, x, 0) {
            Some(t) => Some(ValueV::Text(t)),
            None => match names::lookup(env, x) {
                Some(VarTypeV::Enum { values }) => match free_text(atoms, asg, x, values, 0) {
                    Some(t) => Some(ValueV::Text(t)),
                    None => None,
                },
                Some(VarTypeV::Bool) => Some(
                    ValueV::Bool(assigned_value(atoms, asg, AtomV::Bool(x)) == Some(true)),
                ),
                Some(_) => Some(ValueV::Number(num::display(0, 1))),
                None => match assigned_value(atoms, asg, AtomV::Bool(x)) {
                    Some(b) => Some(ValueV::Bool(b)),
                    None => None,
                },
            },
        },
    }
}

/// The model of an assignment: a value for every variable that the formulas mention.
pub open spec fn model_of(
    env: Sorts,
    cs: Seq<ExprV>,
    atoms: Seq<AtomV>,
    asg: Seq<bool>,
    m: Terms,
) -> Map<Seq<char>, ValueV> {
    Map::new(
        |x: Seq<char>|
            logic::vars_of_all(cs).contains(x) && value_for(env, atoms, asg, m, x) is Some,
        |x: Seq<char>| value_for(env, atoms, asg, m, x)->0,
    )
}

/// What is said where something ran out.
pub open spec fn reason(l: Limit, lim: Limits) -> Seq<char> {
    match l {
        Limit::Time => "search exceeded its "@ + text::digits(lim.millis) + " ms time limit"@,
        Limit::Nodes => "boolean search exceeded "@ + text::digits(lim.nodes) + " nodes"@,
        Limit::Constraints => "Fourier–Motzkin elimination exceeded "@ + text::digits(lim.cons)
            + " constraints"@,
        Limit::Branches => "integer branch-and-bound exceeded "@ + text::digits(lim.branches)
            + " branches"@,
        Limit::Bound => "integer bound overflowed"@,
        Limit::Overflow => "exact arithmetic overflowed"@,
    }
}

/// What is said where there are too many atoms.
pub open spec fn too_many_atoms(n: nat, max: nat) -> Seq<char> {
    "formula has "@ + text::digits(n) + " distinct atoms, over the limit of "@ + text::digits(max)
}

/// The decision on a conjunction of formulas when time does not run out.
pub open spec fn decision(env: Sorts, cs: Seq<ExprV>, lim: Limits) -> OutcomeV {
    let atoms = distinct(logic::atoms_of_all(cs));
    if atoms.len() > lim.atoms {
        OutcomeV::Unknown(too_many_atoms(atoms.len(), lim.atoms))
    } else {
        match search(env, cs, atoms, Seq::empty(), 0, 0, lim).answer {
            AnswerV::Found(asg, m) => OutcomeV::Sat(model_of(env, cs, atoms, asg, m)),
            AnswerV::Nothing => OutcomeV::Unsat,
            AnswerV::Stop(l) => OutcomeV::Unknown(reason(l, lim)),
        }
    }
}

/// Is `o` a right answer to the question whether the formulas are satisfiable: the
/// decision, or that time ran out?
pub open spec fn answers(env: Sorts, cs: Seq<ExprV>, lim: Limits, o: OutcomeV) -> bool {
    o == decision(env, cs, lim) || (o == OutcomeV::Unknown(reason(Limit::Time, lim)) && distinct(
        logic::atoms_of_all(cs),
    ).len() <= lim.atoms)
}

// ── Budgets ─────────────────────────────────────────────────────────────────────

proof fn lemma_search_budgets(
    env: Sorts,
    cs: Seq<ExprV>,
    atoms: Seq<AtomV>,
    asg: Seq<bool>,
    nodes: nat,
    branches: nat,
    l1: Limits,
    l2: Limits,
)
    ensures
        ({
            let r1 = search(env, cs, atoms, asg, nodes, branches, l1);
            let r2 = search(env, cs, atoms, asg, nodes, branches, l2);
            r1.answer is Stop || r2.answer is Stop || r1 == r2
        }),
    decreases atoms.len() - asg.len(),
{
    if nodes < l1.nodes && nodes < l2.nodes && !refuted(cs, atoms, asg) {
        if !clash(env, atoms, asg) {
            if let Some(ncs) = numeric(atoms, asg) {
                theory::lemma_branching_ceilings(
                    env,
                    ncs,
                    branches,
                    l1.cons,
                    l1.branches,
                    l2.cons,
                    l2.branches,
                );
            }
        }
        let (t, b) = theory_check(env, atoms, asg, branches, l1);
        if t is Feasible && !confirmed(cs, atoms, asg) && asg.len() < atoms.len() {
            lemma_search_budgets(env, cs, atoms, asg.push(true), nodes + 1, b, l1, l2);
            let r = search(env, cs, atoms, asg.push(true), nodes + 1, b, l1);
            lemma_search_budgets(env, cs, atoms, asg.push(false), r.nodes, r.branches, l1, l2);
        }
    }
}

/// A budget can only turn an answer into `Unknown`, never into another one: two answers
/// about the same formulas, under whatever budgets and whether or not there is a time
/// limit, are the same unless one of them is `Unknown`.
pub proof fn lemma_budgets_agree(
    env: Sorts,
    cs: Seq<ExprV>,
    l1: Limits,
    o1: OutcomeV,
    l2: Limits,
    o2: OutcomeV,
)
    requires
        answers(env, cs, l1, o1),
        answers(env, cs, l2, o2),
    ensures
        o1 is Unknown || o2 is Unknown || o1 == o2,
        !(o1 is Sat && o2 is Unsat),
        !(o1 is Unsat && o2 is Sat),
{
    let atoms = distinct(logic::atoms_of_all(cs));
    lemma_search_budgets(env, cs, atoms, Seq::empty(), 0, 0, l1, l2);
}

} // verus!
