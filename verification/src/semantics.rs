//! What formulas mean.

use vstd::prelude::*;

use crate::linear;
use crate::logic;
use crate::logic::{AtomV, ExprV, VarTypeV};
use crate::names;
use crate::num;

verus! {

/// A world: a truth value, a text and a number for every name. Which of the three
/// matters for a name is a question of its sort.
pub struct Valuation {
    pub bools: spec_fn(Seq<char>) -> bool,
    pub texts: spec_fn(Seq<char>) -> Seq<char>,
    pub nums: spec_fn(Seq<char>) -> real,
}

/// Declared variables with their sorts.
pub type Sorts = Seq<(Seq<char>, VarTypeV)>;

/// Is the formula true in the world?
pub open spec fn holds(e: ExprV, v: Valuation) -> bool
    decreases e,
{
    match e {
        ExprV::Const(b) => b,
        ExprV::Bool(name) => (v.bools)(name),
        ExprV::EnumEq(name, value) => (v.texts)(name) == value,
        ExprV::Le(l) => linear::value(l, v.nums) <= 0 as real,
        ExprV::Lt(l) => linear::value(l, v.nums) < 0 as real,
        ExprV::Not(inner) => !holds(*inner, v),
        ExprV::And(items) => all_of(items, v),
        ExprV::Or(items) => one_of(items, v),
    }
}

/// Are the items of a conjunction true?
pub open spec fn all_of(items: Seq<ExprV>, v: Valuation) -> bool
    decreases items,
{
    items.len() == 0 || (all_of(items.drop_last(), v) && holds(items.last(), v))
}

/// Is an item of a disjunction true?
pub open spec fn one_of(items: Seq<ExprV>, v: Valuation) -> bool
    decreases items,
{
    items.len() > 0 && (one_of(items.drop_last(), v) || holds(items.last(), v))
}

/// Are all the formulas true in the world?
pub open spec fn all_hold(items: Seq<ExprV>, v: Valuation) -> bool {
    forall|i: int| 0 <= i < items.len() ==> #[trigger] holds(items[i], v)
}

/// Is one of the formulas true in the world?
pub open spec fn one_holds(items: Seq<ExprV>, v: Valuation) -> bool {
    exists|i: int| 0 <= i < items.len() && #[trigger] holds(items[i], v)
}

/// Is the atom true in the world?
pub open spec fn atom_holds(a: AtomV, v: Valuation) -> bool {
    match a {
        AtomV::Bool(name) => (v.bools)(name),
        AtomV::EnumEq(name, value) => (v.texts)(name) == value,
        AtomV::Le(l) => linear::value(l, v.nums) <= 0 as real,
        AtomV::Lt(l) => linear::value(l, v.nums) < 0 as real,
    }
}

/// Does the world respect the sorts of what the atom tests? An `enum` variable whose value
/// is tested has one of its declared values, and an `int` variable in a comparison is a
/// whole number.
pub open spec fn respects(env: Sorts, a: AtomV, v: Valuation) -> bool {
    match a {
        AtomV::Bool(_) => true,
        AtomV::EnumEq(name, _) => names::lookup(env, name) matches Some(VarTypeV::Enum { values })
            ==> values.contains((v.texts)(name)),
        AtomV::Le(l) => whole_where_int(env, l, v),
        AtomV::Lt(l) => whole_where_int(env, l, v),
    }
}

/// Are the `int` variables of the form whole numbers?
pub open spec fn whole_where_int(env: Sorts, l: linear::LinV, v: Valuation) -> bool {
    forall|x: Seq<char>| #[trigger]
        names::named(l.terms, x) && names::lookup(env, x) == Some(VarTypeV::Int) ==> num::is_whole(
            (v.nums)(x),
        )
}

/// Does the world respect the sorts of what the formulas test?
pub open spec fn admissible(env: Sorts, cs: Seq<ExprV>, v: Valuation) -> bool {
    forall|a: AtomV| #[trigger] logic::atoms_of_all(cs).contains(a) ==> respects(env, a, v)
}

/// Is the world one that respects the sorts and in which every formula is true?
pub open spec fn satisfies(env: Sorts, cs: Seq<ExprV>, v: Valuation) -> bool {
    admissible(env, cs, v) && all_hold(cs, v)
}

/// Is there a world in which every formula is true?
pub open spec fn satisfiable(env: Sorts, cs: Seq<ExprV>) -> bool {
    exists|v: Valuation| satisfies(env, cs, v)
}

/// Is the conclusion true in every world in which the premises are?
pub open spec fn entails(env: Sorts, premises: Seq<ExprV>, conclusion: ExprV) -> bool {
    forall|v: Valuation| #[trigger]
        admissible(env, premises.push(conclusion), v) && all_hold(premises, v) ==> holds(
            conclusion,
            v,
        )
}

/// Does one list of formulas hold all those of the other?
pub open spec fn covers(more: Seq<ExprV>, less: Seq<ExprV>) -> bool {
    forall|e: ExprV| #[trigger] less.contains(e) ==> more.contains(e)
}

pub proof fn lemma_atoms_of_last(items: Seq<ExprV>)
    requires
        items.len() > 0,
    ensures
        forall|a: AtomV| #[trigger]
            logic::atoms_of_all(items).contains(a) <==> logic::atoms_of_all(
                items.drop_last(),
            ).contains(a) || logic::atoms_of(items.last()).contains(a),
{
    let p = logic::atoms_of_all(items.drop_last());
    let q = logic::atoms_of(items.last());
    assert forall|a: AtomV| #[trigger] logic::atoms_of_all(items).contains(a) <==> p.contains(a)
        || q.contains(a) by {
        if p.contains(a) {
            assert((p + q)[p.index_of(a)] == a);
        }
        if q.contains(a) {
            assert((p + q)[p.len() + q.index_of(a)] == a);
        }
        if (p + q).contains(a) {
            let i = (p + q).index_of(a);
            if i < p.len() {
                assert(p[i] == a);
            } else {
                assert(q[i - p.len()] == a);
            }
        }
    }
}

/// An atom of formulas is one of some formula.
pub proof fn lemma_atom_from(items: Seq<ExprV>, a: AtomV) -> (i: int)
    requires
        logic::atoms_of_all(items).contains(a),
    ensures
        0 <= i < items.len(),
        logic::atoms_of(items[i]).contains(a),
    decreases items.len(),
{
    let init = items.drop_last();
    let p = logic::atoms_of_all(init);
    let q = logic::atoms_of(items.last());
    let k = (p + q).index_of(a);
    if k < p.len() {
        assert(p[k] == a);
        let i = lemma_atom_from(init, a);
        assert(items[i] == init[i]);
        i
    } else {
        assert(q[k - p.len()] == a);
        items.len() - 1
    }
}

/// The atoms of one formula are among the atoms of all.
pub proof fn lemma_atoms_of_item(items: Seq<ExprV>, i: int, a: AtomV)
    requires
        0 <= i < items.len(),
        logic::atoms_of(items[i]).contains(a),
    ensures
        logic::atoms_of_all(items).contains(a),
    decreases items.len(),
{
    lemma_atoms_of_last(items);
    if i < items.len() - 1 {
        assert(items.drop_last()[i] == items[i]);
        lemma_atoms_of_item(items.drop_last(), i, a);
    }
}

/// A formula and its negation test the same.
pub proof fn lemma_negation_atoms(e: ExprV)
    ensures
        logic::atoms_of(logic::negation(e)) == logic::atoms_of(e),
{
    reveal_with_fuel(logic::atoms_of, 2);
}

/// Formulas test what some of them test.
pub proof fn lemma_covered_atoms(more: Seq<ExprV>, less: Seq<ExprV>, a: AtomV)
    requires
        covers(more, less),
        logic::atoms_of_all(less).contains(a),
    ensures
        logic::atoms_of_all(more).contains(a),
{
    let i = lemma_atom_from(less, a);
    assert(less.contains(less[i]));
    lemma_atoms_of_item(more, more.index_of(less[i]), a);
}

/// A world that satisfies formulas satisfies some of them.
pub proof fn lemma_fewer(env: Sorts, more: Seq<ExprV>, less: Seq<ExprV>, v: Valuation)
    requires
        covers(more, less),
    ensures
        admissible(env, more, v) ==> admissible(env, less, v),
        satisfies(env, more, v) ==> satisfies(env, less, v),
{
    if admissible(env, more, v) {
        assert forall|a: AtomV| #[trigger]
            logic::atoms_of_all(less).contains(a) implies respects(env, a, v) by {
            lemma_covered_atoms(more, less, a);
        }
    }
    if satisfies(env, more, v) {
        assert forall|i: int| 0 <= i < less.len() implies #[trigger] holds(less[i], v) by {
            assert(less.contains(less[i]));
            assert(holds(more[more.index_of(less[i])], v));
        }
    }
}

/// A world respects the sorts of formulas and one more where it does for that with its
/// negation.
pub proof fn lemma_admissible_negation(env: Sorts, cs: Seq<ExprV>, e: ExprV, v: Valuation)
    ensures
        admissible(env, cs.push(logic::negation(e)), v) == admissible(env, cs.push(e), v),
{
    let (a, b) = (cs.push(e), cs.push(logic::negation(e)));
    lemma_negation_atoms(e);
    assert(a.drop_last() =~= cs);
    assert(b.drop_last() =~= cs);
    assert(logic::atoms_of_all(a) == logic::atoms_of_all(b));
}

/// Refutation: a conclusion follows exactly where its negation has no world with the
/// premises.
pub proof fn lemma_refutation(env: Sorts, premises: Seq<ExprV>, conclusion: ExprV)
    ensures
        entails(env, premises, conclusion) <==> !satisfiable(
            env,
            premises.push(logic::negation(conclusion)),
        ),
{
    let no = logic::negation(conclusion);
    let q = premises.push(no);
    if entails(env, premises, conclusion) {
        assert forall|v: Valuation| !satisfies(env, q, v) by {
            lemma_append(premises, no, v);
            lemma_negation(conclusion, v);
            lemma_admissible_negation(env, premises, conclusion, v);
        }
    } else {
        let v = choose|v: Valuation| #[trigger]
            admissible(env, premises.push(conclusion), v) && all_hold(premises, v) && !holds(
                conclusion,
                v,
            );
        lemma_append(premises, no, v);
        lemma_negation(conclusion, v);
        lemma_admissible_negation(env, premises, conclusion, v);
        assert(satisfies(env, q, v));
    }
}

/// A claim is refuted exactly where it has no world with the premises.
pub proof fn lemma_contradiction(env: Sorts, premises: Seq<ExprV>, claim: ExprV)
    ensures
        entails(env, premises, logic::negation(claim)) <==> !satisfiable(env, premises.push(claim)),
{
    let no = logic::negation(claim);
    let q = premises.push(claim);
    if entails(env, premises, no) {
        assert forall|v: Valuation| !satisfies(env, q, v) by {
            lemma_append(premises, claim, v);
            lemma_negation(claim, v);
            lemma_admissible_negation(env, premises, claim, v);
        }
    } else {
        let v = choose|v: Valuation| #[trigger]
            admissible(env, premises.push(no), v) && all_hold(premises, v) && !holds(no, v);
        lemma_append(premises, claim, v);
        lemma_negation(claim, v);
        lemma_admissible_negation(env, premises, claim, v);
        assert(satisfies(env, q, v));
    }
}

/// A conjunction means all of its items and a disjunction one of them.
pub proof fn lemma_items(items: Seq<ExprV>, v: Valuation)
    ensures
        holds(ExprV::And(items), v) == all_hold(items, v),
        holds(ExprV::Or(items), v) == one_holds(items, v),
        all_of(items, v) == all_hold(items, v),
        one_of(items, v) == one_holds(items, v),
    decreases items.len(),
{
    reveal_with_fuel(holds, 2);
    if items.len() > 0 {
        let init = items.drop_last();
        lemma_items(init, v);
        lemma_append(init, items.last(), v);
        assert(init.push(items.last()) =~= items);
    }
}

/// Negating a formula negates its truth value.
pub proof fn lemma_negation(e: ExprV, v: Valuation)
    ensures
        holds(logic::negation(e), v) == !holds(e, v),
{
    reveal_with_fuel(holds, 2);
}

/// A formula and its double negation are the same unless a negation inside collapses.
pub proof fn lemma_double_negation(e: ExprV)
    requires
        !(e is Not && *(e->Not_0) is Not),
        !(e is Not && *(e->Not_0) is Const),
    ensures
        logic::negation(logic::negation(e)) == e,
{
}

proof fn lemma_flattened(items: Seq<ExprV>, v: Valuation)
    ensures
        !items.contains(ExprV::Const(false)) ==> all_hold(logic::flattened(items, false), v)
            == all_hold(items, v),
        !items.contains(ExprV::Const(true)) ==> one_holds(logic::flattened(items, true), v)
            == one_holds(items, v),
    decreases items.len(),
{
    if items.len() > 0 {
        let init = items.drop_last();
        let last = items.last();
        lemma_flattened(init, v);
        assert forall|e: ExprV| init.contains(e) implies items.contains(e) by {
            let i = init.index_of(e);
            assert(items[i] == e);
        }
        assert(items.contains(last));
        assert(init.push(last) =~= items);
        lemma_append(init, last, v);
        let fa = logic::flattened(init, false);
        let fo = logic::flattened(init, true);
        lemma_append(fa, last, v);
        lemma_append(fo, last, v);
        match last {
            ExprV::And(inner) => {
                lemma_items(inner, v);
                lemma_concat(fa, inner, v);
            },
            ExprV::Or(inner) => {
                lemma_items(inner, v);
                lemma_concat(fo, inner, v);
            },
            _ => {},
        }
    }
}

/// A list with one more formula.
pub proof fn lemma_append(a: Seq<ExprV>, e: ExprV, v: Valuation)
    ensures
        all_hold(a.push(e), v) == (all_hold(a, v) && holds(e, v)),
        one_holds(a.push(e), v) == (one_holds(a, v) || holds(e, v)),
{
    let b = a.push(e);
    assert(b[a.len() as int] == e);
    assert(forall|i: int| 0 <= i < a.len() ==> b[i] == a[i]);
    if one_holds(a, v) {
        let i = choose|i: int| 0 <= i < a.len() && #[trigger] holds(a[i], v);
        assert(holds(b[i], v));
    }
    if holds(e, v) {
        assert(holds(b[a.len() as int], v));
    }
    if all_hold(b, v) {
        assert(holds(b[a.len() as int], v));
        assert forall|i: int| 0 <= i < a.len() implies #[trigger] holds(a[i], v) by {
            assert(holds(b[i], v));
        }
    }
}

/// Formulas of two lists together.
pub proof fn lemma_concat(a: Seq<ExprV>, b: Seq<ExprV>, v: Valuation)
    ensures
        all_hold(a + b, v) == (all_hold(a, v) && all_hold(b, v)),
        one_holds(a + b, v) == (one_holds(a, v) || one_holds(b, v)),
{
    let c = a + b;
    assert(forall|i: int| 0 <= i < a.len() ==> c[i] == a[i]);
    assert(forall|i: int| 0 <= i < b.len() ==> c[a.len() + i] == b[i]);
    if one_holds(a, v) {
        let i = choose|i: int| 0 <= i < a.len() && #[trigger] holds(a[i], v);
        assert(holds(c[i], v));
    }
    if one_holds(b, v) {
        let i = choose|i: int| 0 <= i < b.len() && #[trigger] holds(b[i], v);
        assert(holds(c[a.len() + i], v));
    }
    if one_holds(c, v) {
        let i = choose|i: int| 0 <= i < c.len() && #[trigger] holds(c[i], v);
        if i < a.len() {
            assert(holds(a[i], v));
        } else {
            assert(holds(b[i - a.len()], v));
        }
    }
    if all_hold(c, v) {
        assert forall|i: int| 0 <= i < a.len() implies #[trigger] holds(a[i], v) by {
            assert(holds(c[i], v));
        }
        assert forall|i: int| 0 <= i < b.len() implies #[trigger] holds(b[i], v) by {
            assert(holds(c[a.len() + i], v));
        }
    }
    if all_hold(a, v) && all_hold(b, v) {
        assert forall|i: int| 0 <= i < c.len() implies #[trigger] holds(c[i], v) by {
            if i < a.len() {
                assert(holds(a[i], v));
            } else {
                assert(holds(b[i - a.len()], v));
            }
        }
    }
}

/// A conjunction is true where all its items are.
pub proof fn lemma_conjunction(items: Seq<ExprV>, v: Valuation)
    ensures
        holds(logic::conjunction(items), v) == all_hold(items, v),
{
    lemma_flattened(items, v);
    lemma_items(logic::flattened(items, false), v);
    lemma_items(logic::flattened(items, true), v);
    let flat = logic::flattened(items, false);
    if items.contains(ExprV::Const(false)) {
        let i = items.index_of(ExprV::Const(false));
        assert(!holds(items[i], v));
    } else if flat.len() == 1 {
        assert(all_hold(flat, v) == holds(flat[0], v));
    }
}

/// A disjunction is true where one of its items is.
pub proof fn lemma_disjunction(items: Seq<ExprV>, v: Valuation)
    ensures
        holds(logic::disjunction(items), v) == one_holds(items, v),
{
    lemma_flattened(items, v);
    lemma_items(logic::flattened(items, false), v);
    lemma_items(logic::flattened(items, true), v);
    let flat = logic::flattened(items, true);
    if items.contains(ExprV::Const(true)) {
        let i = items.index_of(ExprV::Const(true));
        assert(holds(items[i], v));
    } else if flat.len() == 1 {
        if holds(flat[0], v) {
            assert(one_holds(flat, v));
        }
    }
}

/// An implication is true where its premise is false or its conclusion is true.
pub proof fn lemma_implication(a: ExprV, b: ExprV, v: Valuation)
    ensures
        holds(logic::implication(a, b), v) == (holds(a, v) ==> holds(b, v)),
{
    let items = seq![logic::negation(a), b];
    lemma_negation(a, v);
    lemma_disjunction(items, v);
    if one_holds(items, v) {
        let i = choose|i: int| 0 <= i < items.len() && #[trigger] holds(items[i], v);
        assert(i == 0 || i == 1);
    }
    if !holds(a, v) {
        assert(holds(items[0], v));
    }
    if holds(b, v) {
        assert(holds(items[1], v));
    }
}

/// An equivalence is true where its sides agree.
pub proof fn lemma_equivalence(a: ExprV, b: ExprV, v: Valuation)
    ensures
        holds(logic::equivalence(a, b), v) == (holds(a, v) == holds(b, v)),
{
    let items = seq![logic::implication(a, b), logic::implication(b, a)];
    lemma_implication(a, b, v);
    lemma_implication(b, a, v);
    lemma_conjunction(items, v);
    if all_hold(items, v) {
        assert(holds(items[0], v));
        assert(holds(items[1], v));
    } else {
        let i = choose|i: int| 0 <= i < items.len() && !#[trigger] holds(items[i], v);
        assert(i == 0 || i == 1);
    }
}

} // verus!
