//! What a parsed text means: the formula that the grammar gives says of every world what
//! the text says.

use vstd::prelude::*;

use crate::completeness;
use crate::grammar;
use crate::grammar::{NodeV, Relation, Toks};
use crate::lexer;
use crate::lexer::{ErrV, TokV};
use crate::linear;
use crate::linear::LinV;
use crate::logic;
use crate::logic::{ExprV, VarTypeV};
use crate::names;
use crate::num::Rat;
use crate::semantics;
use crate::semantics::{Sorts, Valuation};
use crate::text;
use crate::theory;

verus! {

// ── Arithmetic ──────────────────────────────────────────────────────────────────

/// The difference of two forms has the difference of their values.
pub proof fn lemma_difference(a: LinV, b: LinV, f: spec_fn(Seq<char>) -> real)
    requires
        linear::lin_wf(a),
        linear::lin_wf(b),
    ensures
        linear::difference(a, b) matches Some(l) ==> linear::lin_wf(l) && linear::value(l, f)
            == linear::value(a, f) - linear::value(b, f),
{
    linear::lemma_opposite(b, f);
    if let Some(o) = linear::opposite(b) {
        linear::lemma_sum(a, o, f);
    }
}

/// Plus adds and minus subtracts: where two operands combine, both are numbers, and in
/// every world the result is the sum or the difference of their values.
pub proof fn lemma_sum_means(
    toks: Toks,
    i: int,
    left: NodeV,
    right: NodeV,
    minus: bool,
    f: spec_fn(Seq<char>) -> real,
)
    requires
        left matches NodeV::Term(a) ==> linear::lin_wf(a),
        right matches NodeV::Term(b) ==> linear::lin_wf(b),
    ensures
        grammar::sum_of(toks, i, left, right, minus) matches Ok(node) ==> {
            &&& left is Term && right is Term
            &&& node matches NodeV::Term(l) && linear::lin_wf(l) && linear::value(l, f)
                == if minus {
                linear::value(left->Term_0, f) - linear::value(right->Term_0, f)
            } else {
                linear::value(left->Term_0, f) + linear::value(right->Term_0, f)
            }
        },
{
    reveal(grammar::sum_of);
    if left is Term && right is Term {
        linear::lemma_sum(left->Term_0, right->Term_0, f);
        lemma_difference(left->Term_0, right->Term_0, f);
    }
}

/// Sums and differences of numbers with small whole coefficients do combine.
pub proof fn lemma_sum_combines(toks: Toks, i: int, a: LinV, b: LinV, minus: bool, p: int)
    requires
        completeness::small_form(a, p),
        completeness::small_form(b, p),
        0 <= p,
        2 * p <= i128::MAX,
    ensures
        grammar::sum_of(toks, i, NodeV::Term(a), NodeV::Term(b), minus) is Ok,
{
    reveal(grammar::sum_of);
    completeness::lemma_small_sum(a, b, p);
    completeness::lemma_small_opposite(b, p);
    completeness::lemma_small_sum(a, linear::opposite(b)->0, p);
}

/// Times multiplies and the slash divides: where two operands combine, both are numbers and
/// one of them is a constant, the divisor in any case, and in every world the result is the
/// product or the quotient of their values. Two variables are never multiplied.
pub proof fn lemma_product_means(
    toks: Toks,
    i: int,
    left: NodeV,
    right: NodeV,
    divide: bool,
    f: spec_fn(Seq<char>) -> real,
)
    requires
        left matches NodeV::Term(a) ==> linear::lin_wf(a),
        right matches NodeV::Term(b) ==> linear::lin_wf(b),
    ensures
        grammar::product_of(toks, i, left, right, divide) matches Ok(node) ==> {
            &&& left is Term && right is Term
            &&& right->Term_0.terms.len() == 0 || (!divide && left->Term_0.terms.len() == 0)
            &&& node matches NodeV::Term(l) && linear::lin_wf(l) && if divide {
                &&& linear::value(right->Term_0, f) != 0 as real
                &&& linear::value(l, f) * linear::value(right->Term_0, f) == linear::value(
                    left->Term_0,
                    f,
                )
            } else {
                linear::value(l, f) == linear::value(left->Term_0, f) * linear::value(
                    right->Term_0,
                    f,
                )
            }
        },
{
    reveal(grammar::product_of);
    if left is Term && right is Term {
        let (a, b) = (left->Term_0, right->Term_0);
        let (x, y) = (linear::value(a, f), linear::value(b, f));
        linear::lemma_scaled(a, b.constant, f);
        linear::lemma_scaled(b, a.constant, f);
        Rat::lemma_whole(1);
        Rat::of(1, 1).lemma_over(b.constant);
        b.constant.lemma_wf();
        assert(x * y == y * x) by (nonlinear_arith);
        if divide && b.terms.len() == 0 {
            if let Some(k) = Rat::of(1, 1).over(b.constant) {
                linear::lemma_scaled(a, k, f);
                let q = k.val();
                assert((q * x) * y == x) by (nonlinear_arith)
                    requires
                        q * y == 1 as real,
                ;
            }
        }
    }
}

/// A product with a number, and a quotient by one that is not zero, do combine as long as
/// the coefficients stay in range.
pub proof fn lemma_product_combines(toks: Toks, i: int, a: LinV, k: Rat, p: int, q: int)
    requires
        completeness::small_form(a, p),
        completeness::small(k, q),
        0 <= p,
        0 <= q,
        p * q <= i128::MAX,
    ensures
        ({
            let number = NodeV::Term(linear::constant_form(k));
            &&& grammar::product_of(toks, i, NodeV::Term(a), number, false) is Ok
            &&& grammar::product_of(toks, i, number, NodeV::Term(a), false) is Ok
        }),
{
    reveal(grammar::product_of);
    completeness::lemma_small_scaled(a, k, p, q);
    if a.terms.len() == 0 {
        let c = linear::constant_form(k);
        assert(p * q == q * p) by (nonlinear_arith);
        assert(completeness::small_form(c, q));
        completeness::lemma_small_scaled(c, a.constant, q, p);
    }
}

// ── Comparisons and names ───────────────────────────────────────────────────────

/// A comparison means what it says: of two numbers, that their values compare so; of an
/// enum variable and a text, on either side, that the variable has that value or another,
/// and the value is a declared one; of two conditions, that they are equally true or not.
/// Nothing else can be compared.
pub proof fn lemma_comparison_means(
    env: Sorts,
    toks: Toks,
    i: int,
    left: NodeV,
    op: Relation,
    right: NodeV,
    v: Valuation,
)
    requires
        left matches NodeV::Term(a) ==> linear::lin_wf(a),
        right matches NodeV::Term(b) ==> linear::lin_wf(b),
    ensures
        grammar::comparison(env, toks, i, left, op, right) matches Ok(e) ==> match (left, right) {
            (NodeV::Term(a), NodeV::Term(b)) => {
                let (x, y) = (linear::value(a, v.nums), linear::value(b, v.nums));
                semantics::holds(e, v) == match op {
                    Relation::Le => x <= y,
                    Relation::Lt => x < y,
                    Relation::Ge => x >= y,
                    Relation::Gt => x > y,
                    Relation::Eq => x == y,
                    Relation::Ne => x != y,
                }
            },
            (NodeV::EnumRef(x), NodeV::Str(t)) => enum_means(env, x, t, op, e, v),
            (NodeV::Str(t), NodeV::EnumRef(x)) => enum_means(env, x, t, op, e, v),
            (NodeV::Formula(a), NodeV::Formula(b)) => {
                &&& op == Relation::Eq || op == Relation::Ne
                &&& semantics::holds(e, v) == ((op == Relation::Eq) == (semantics::holds(a, v)
                    == semantics::holds(b, v)))
            },
            _ => false,
        },
{
    reveal(grammar::comparison);
    match (left, right) {
        (NodeV::Term(a), NodeV::Term(b)) => {
            if linear::difference(a, b) is Some && linear::opposite(
                linear::difference(a, b)->0,
            ) is Some {
                grammar::lemma_normal_form(op, a, b, v);
            }
        },
        (NodeV::EnumRef(x), NodeV::Str(t)) => {
            semantics::lemma_negation(ExprV::EnumEq(x, t), v);
        },
        (NodeV::Str(t), NodeV::EnumRef(x)) => {
            semantics::lemma_negation(ExprV::EnumEq(x, t), v);
        },
        (NodeV::Formula(a), NodeV::Formula(b)) => {
            semantics::lemma_equivalence(a, b, v);
            semantics::lemma_negation(logic::equivalence(a, b), v);
        },
        _ => {},
    }
}

/// Does the formula say that the variable has the value, or that it has another?
pub open spec fn enum_means(
    env: Sorts,
    x: Seq<char>,
    t: Seq<char>,
    op: Relation,
    e: ExprV,
    v: Valuation,
) -> bool {
    &&& op == Relation::Eq || op == Relation::Ne
    &&& names::lookup(env, x) matches Some(VarTypeV::Enum { values }) ==> values.contains(t)
    &&& semantics::holds(e, v) == ((op == Relation::Eq) == ((v.texts)(x) == t))
}

/// A comparison of an enum variable with a declared value, by `==` or `!=` and on either
/// side, is one; so is a comparison of two conditions by these.
pub proof fn lemma_comparison_accepted(
    env: Sorts,
    toks: Toks,
    i: int,
    x: Seq<char>,
    t: Seq<char>,
    a: ExprV,
    b: ExprV,
    op: Relation,
)
    requires
        op == Relation::Eq || op == Relation::Ne,
        names::lookup(env, x) matches Some(VarTypeV::Enum { values }) && values.contains(t),
    ensures
        grammar::comparison(env, toks, i, NodeV::EnumRef(x), op, NodeV::Str(t)) is Ok,
        grammar::comparison(env, toks, i, NodeV::Str(t), op, NodeV::EnumRef(x)) is Ok,
        grammar::comparison(env, toks, i, NodeV::Formula(a), op, NodeV::Formula(b)) is Ok,
{
    reveal(grammar::comparison);
}

/// Every comparison of numbers with small whole coefficients is one.
pub proof fn lemma_numbers_compared(
    env: Sorts,
    toks: Toks,
    i: int,
    a: LinV,
    b: LinV,
    op: Relation,
    p: int,
)
    requires
        completeness::small_form(a, p),
        completeness::small_form(b, p),
        0 <= p,
        2 * p <= i128::MAX,
    ensures
        grammar::comparison(env, toks, i, NodeV::Term(a), op, NodeV::Term(b)) is Ok,
{
    reveal(grammar::comparison);
    completeness::lemma_small_opposite(b, p);
    completeness::lemma_small_sum(a, linear::opposite(b)->0, p);
    completeness::lemma_small_opposite(linear::difference(a, b)->0, 2 * p);
}

/// A name means the variable that it names: a declared boolean is a condition that is true
/// where it is, a declared number is its value, a declared enum can be compared, and what
/// is not declared is an error. `true` and `false`, in any case, mean that.
pub proof fn lemma_name_means(env: Sorts, toks: Toks, i: int, name: Seq<char>, v: Valuation)
    ensures
        ({
            let r = grammar::name_node(env, toks, i, name);
            if text::lower(name) == "true"@ {
                r matches Ok(NodeV::Formula(e)) && semantics::holds(e, v)
            } else if text::lower(name) == "false"@ {
                r matches Ok(NodeV::Formula(e)) && !semantics::holds(e, v)
            } else {
                match names::lookup(env, name) {
                    Some(VarTypeV::Bool) => r matches Ok(NodeV::Formula(e)) && semantics::holds(
                        e,
                        v,
                    ) == (v.bools)(name),
                    Some(VarTypeV::Int) => r matches Ok(NodeV::Term(l)) && linear::value(l, v.nums)
                        == (v.nums)(name),
                    Some(VarTypeV::Real) => r matches Ok(NodeV::Term(l)) && linear::value(
                        l,
                        v.nums,
                    ) == (v.nums)(name),
                    Some(VarTypeV::Enum { .. }) => r matches Ok(NodeV::EnumRef(x)) && x == name,
                    None => r is Err,
                }
            }
        }),
{
    reveal(grammar::name_node);
    reveal_strlit("true");
    reveal_strlit("false");
    theory::lemma_variable_form(name, v.nums);
}

// ── Connectives ─────────────────────────────────────────────────────────────────

/// Is the operand a condition that is true in the world?
pub open spec fn true_in(node: NodeV, v: Valuation) -> bool {
    node matches NodeV::Formula(e) && semantics::holds(e, v)
}

/// An arrow means that the right side is true where the left side is, a double arrow that
/// they are equally true. Arrows group to the right, and both sides are conditions.
pub proof fn lemma_arrow_means(
    env: Sorts,
    toks: Toks,
    i: int,
    left: NodeV,
    j: int,
    right: NodeV,
    k: int,
    v: Valuation,
)
    requires
        grammar::or_at(env, toks, i) == Ok::<(NodeV, int), ErrV>((left, j)),
        0 <= i < j,
        grammar::is_tok(toks, j, TokV::Arrow) || grammar::is_tok(toks, j, TokV::Iff),
        grammar::implies_at(env, toks, j + 1) == Ok::<(NodeV, int), ErrV>((right, k)),
    ensures
        grammar::implies_at(env, toks, i) is Ok <==> left is Formula && right is Formula,
        grammar::implies_at(env, toks, i) matches Ok((node, end)) ==> {
            &&& end == k
            &&& node is Formula
            &&& true_in(node, v) == if grammar::is_tok(toks, j, TokV::Arrow) {
                true_in(left, v) ==> true_in(right, v)
            } else {
                true_in(left, v) == true_in(right, v)
            }
        },
{
    reveal_with_fuel(grammar::implies_at, 2);
    if left is Formula && right is Formula {
        semantics::lemma_implication(left->Formula_0, right->Formula_0, v);
        semantics::lemma_equivalence(left->Formula_0, right->Formula_0, v);
    }
}

/// Without an arrow behind it, what stands at the level of arrows is what stands at the
/// level of `or`.
pub proof fn lemma_no_arrow(env: Sorts, toks: Toks, i: int, left: NodeV, j: int)
    requires
        grammar::or_at(env, toks, i) == Ok::<(NodeV, int), ErrV>((left, j)),
        !grammar::is_tok(toks, j, TokV::Arrow),
        !grammar::is_tok(toks, j, TokV::Iff),
    ensures
        grammar::implies_at(env, toks, i) == Ok::<(NodeV, int), ErrV>((left, j)),
{
    reveal_with_fuel(grammar::implies_at, 2);
}

proof fn lemma_as_formulas(toks: Toks, i: int, nodes: Seq<NodeV>)
    ensures
        grammar::as_formulas(toks, i, nodes) is Ok <==> forall|k: int|
            0 <= k < nodes.len() ==> (#[trigger] nodes[k]) is Formula,
        grammar::as_formulas(toks, i, nodes) matches Ok(fs) ==> fs.len() == nodes.len() && (
        forall|k: int| 0 <= k < nodes.len() ==> #[trigger] nodes[k] == NodeV::Formula(fs[k])),
    decreases nodes.len(),
{
    if nodes.len() > 0 {
        let init = nodes.drop_last();
        lemma_as_formulas(toks, i, init);
        if let Ok(fs) = grammar::as_formulas(toks, i, nodes) {
            assert forall|k: int| 0 <= k < nodes.len() implies #[trigger] nodes[k]
                == NodeV::Formula(fs[k]) by {
                if k < init.len() {
                    assert(init[k] == nodes[k]);
                }
            }
        } else {
            if grammar::as_formulas(toks, i, init) is Err {
                let k = choose|k: int|
                    0 <= k < init.len() && !((#[trigger] init[k]) is Formula);
                assert(nodes[k] == init[k]);
            } else {
                assert(!(nodes[nodes.len() - 1] is Formula));
            }
        }
    }
}

proof fn lemma_operands(toks: Toks, i: int, first: NodeV, more: Seq<NodeV>, v: Valuation)
    ensures
        grammar::as_formulas(toks, i, seq![first] + more) is Ok <==> first is Formula
            && all_conditions(more),
        grammar::as_formulas(toks, i, seq![first] + more) matches Ok(fs) ==> {
            &&& semantics::holds(logic::disjunction(fs), v) <==> true_in(first, v) || one_true(
                more,
                v,
            )
            &&& semantics::holds(logic::conjunction(fs), v) <==> true_in(first, v) && all_true(
                more,
                v,
            )
        },
{
    let all = seq![first] + more;
    lemma_as_formulas(toks, i, all);
    assert(all[0] == first);
    assert forall|n: int| 0 <= n < more.len() implies #[trigger] more[n] == all[n + 1] by {}
    if first is Formula && all_conditions(more) {
        assert forall|n: int| 0 <= n < all.len() implies (#[trigger] all[n]) is Formula by {
            if n > 0 {
                assert(more[n - 1] is Formula);
            }
        }
    }
    if let Ok(fs) = grammar::as_formulas(toks, i, all) {
        semantics::lemma_conjunction(fs, v);
        semantics::lemma_disjunction(fs, v);
        assert(all[0] == NodeV::Formula(fs[0]));
        assert forall|n: int| 0 <= n < more.len() implies #[trigger] more[n] == NodeV::Formula(
            fs[n + 1],
        ) by {
            assert(all[n + 1] == NodeV::Formula(fs[n + 1]));
        }
        if semantics::one_holds(fs, v) {
            let n = choose|n: int| 0 <= n < fs.len() && #[trigger] semantics::holds(fs[n], v);
            if n > 0 {
                assert(true_in(more[n - 1], v));
            }
        } else {
            assert(!semantics::holds(fs[0], v));
            assert forall|n: int| 0 <= n < more.len() implies !true_in(#[trigger] more[n], v) by {
                assert(!semantics::holds(fs[n + 1], v));
            }
        }
        if semantics::all_hold(fs, v) {
            assert(semantics::holds(fs[0], v));
            assert forall|n: int| 0 <= n < more.len() implies true_in(#[trigger] more[n], v) by {
                assert(semantics::holds(fs[n + 1], v));
            }
        } else {
            let n = choose|n: int| 0 <= n < fs.len() && !#[trigger] semantics::holds(fs[n], v);
            if n > 0 {
                assert(!true_in(more[n - 1], v));
            }
        }
    }
}

/// Are the operands all conditions?
pub open spec fn all_conditions(nodes: Seq<NodeV>) -> bool {
    forall|n: int| 0 <= n < nodes.len() ==> (#[trigger] nodes[n]) is Formula
}

/// Are the operands all conditions that are true in the world?
pub open spec fn all_true(nodes: Seq<NodeV>, v: Valuation) -> bool {
    forall|n: int| 0 <= n < nodes.len() ==> true_in(#[trigger] nodes[n], v)
}

/// Is one of the operands a condition that is true in the world?
pub open spec fn one_true(nodes: Seq<NodeV>, v: Valuation) -> bool {
    exists|n: int| 0 <= n < nodes.len() && true_in(#[trigger] nodes[n], v)
}

/// `or` means that one of the operands is true. The operands are conditions.
pub proof fn lemma_or_means(
    env: Sorts,
    toks: Toks,
    i: int,
    first: NodeV,
    j: int,
    more: Seq<NodeV>,
    k: int,
    v: Valuation,
)
    requires
        0 <= i < j <= toks.len(),
        grammar::and_at(env, toks, i) == Ok::<(NodeV, int), ErrV>((first, j)),
        grammar::or_tail(env, toks, j) == Ok::<(Seq<NodeV>, int), ErrV>((more, k)),
    ensures
        more.len() == 0 ==> grammar::or_at(env, toks, i) == Ok::<
            (NodeV, int),
            ErrV,
        >((first, k)),
        more.len() > 0 ==> (grammar::or_at(env, toks, i) is Ok <==> first is Formula
            && all_conditions(more)),
        more.len() > 0 ==> (grammar::or_at(env, toks, i) matches Ok((node, end)) ==> {
            &&& end == k
            &&& node is Formula
            &&& true_in(node, v) <==> true_in(first, v) || one_true(more, v)
        }),
{
    lemma_operands(toks, k, first, more, v);
}

/// `and`, which binds more tightly than `or`, means that all the operands are true. The
/// operands are conditions.
pub proof fn lemma_and_means(
    env: Sorts,
    toks: Toks,
    i: int,
    first: NodeV,
    j: int,
    more: Seq<NodeV>,
    k: int,
    v: Valuation,
)
    requires
        0 <= i < j <= toks.len(),
        grammar::not_at(env, toks, i) == Ok::<(NodeV, int), ErrV>((first, j)),
        grammar::and_tail(env, toks, j) == Ok::<(Seq<NodeV>, int), ErrV>((more, k)),
    ensures
        more.len() == 0 ==> grammar::and_at(env, toks, i) == Ok::<
            (NodeV, int),
            ErrV,
        >((first, k)),
        more.len() > 0 ==> (grammar::and_at(env, toks, i) is Ok <==> first is Formula
            && all_conditions(more)),
        more.len() > 0 ==> (grammar::and_at(env, toks, i) matches Ok((node, end)) ==> {
            &&& end == k
            &&& node is Formula
            &&& true_in(node, v) <==> true_in(first, v) && all_true(more, v)
        }),
{
    lemma_operands(toks, k, first, more, v);
}

/// Each operand behind an `or`, or behind an `and`, is taken in, in order, and the list ends
/// where no such word follows.
pub proof fn lemma_operands_listed(
    env: Sorts,
    toks: Toks,
    i: int,
    next: NodeV,
    j: int,
    rest: Seq<NodeV>,
    k: int,
)
    requires
        0 <= i < toks.len(),
        i + 1 < j <= toks.len(),
    ensures
        !grammar::is_tok(toks, i, TokV::Or) ==> grammar::or_tail(env, toks, i) == Ok::<
            (Seq<NodeV>, int),
            ErrV,
        >((seq![], i)),
        grammar::is_tok(toks, i, TokV::Or) && grammar::and_at(env, toks, i + 1) == Ok::<
            (NodeV, int),
            ErrV,
        >((next, j)) && grammar::or_tail(env, toks, j) == Ok::<
            (Seq<NodeV>, int),
            ErrV,
        >((rest, k)) ==> grammar::or_tail(env, toks, i) == Ok::<
            (Seq<NodeV>, int),
            ErrV,
        >((seq![next] + rest, k)),
        !grammar::is_tok(toks, i, TokV::And) ==> grammar::and_tail(env, toks, i) == Ok::<
            (Seq<NodeV>, int),
            ErrV,
        >((seq![], i)),
        grammar::is_tok(toks, i, TokV::And) && grammar::not_at(env, toks, i + 1) == Ok::<
            (NodeV, int),
            ErrV,
        >((next, j)) && grammar::and_tail(env, toks, j) == Ok::<
            (Seq<NodeV>, int),
            ErrV,
        >((rest, k)) ==> grammar::and_tail(env, toks, i) == Ok::<
            (Seq<NodeV>, int),
            ErrV,
        >((seq![next] + rest, k)),
{
    reveal_with_fuel(grammar::or_tail, 2);
    reveal_with_fuel(grammar::and_tail, 2);
}

/// `not` means that the condition behind it is false, and binds more tightly than `and`.
pub proof fn lemma_not_means(
    env: Sorts,
    toks: Toks,
    i: int,
    inner: NodeV,
    j: int,
    v: Valuation,
)
    requires
        grammar::is_tok(toks, i, TokV::Not),
        grammar::not_at(env, toks, i + 1) == Ok::<(NodeV, int), ErrV>((inner, j)),
    ensures
        grammar::not_at(env, toks, i) is Ok <==> inner is Formula,
        grammar::not_at(env, toks, i) matches Ok((node, end)) ==> {
            &&& end == j
            &&& node is Formula
            &&& true_in(node, v) == !true_in(inner, v)
        },
{
    reveal_with_fuel(grammar::not_at, 2);
    if inner is Formula {
        semantics::lemma_negation(inner->Formula_0, v);
    }
}

/// A sum is added up from the left: the operand behind a plus or a minus sign is added to
/// or taken from what stands before it, and the rest follows.
pub proof fn lemma_sum_from_the_left(
    env: Sorts,
    toks: Toks,
    left: NodeV,
    i: int,
    right: NodeV,
    j: int,
    f: spec_fn(Seq<char>) -> real,
)
    requires
        grammar::is_tok(toks, i, TokV::Plus) || grammar::is_tok(toks, i, TokV::Minus),
        grammar::product_at(env, toks, i + 1) == Ok::<(NodeV, int), ErrV>((right, j)),
        i + 1 < j <= toks.len(),
        left matches NodeV::Term(a) ==> linear::lin_wf(a),
        right matches NodeV::Term(b) ==> linear::lin_wf(b),
        grammar::sum_of(toks, j, left, right, grammar::is_tok(toks, i, TokV::Minus)) is Ok,
    ensures
        exists|l: LinV|
            #![trigger linear::lin_wf(l)]
            {
                &&& linear::lin_wf(l)
                &&& left is Term && right is Term
                &&& linear::value(l, f) == if grammar::is_tok(toks, i, TokV::Minus) {
                    linear::value(left->Term_0, f) - linear::value(right->Term_0, f)
                } else {
                    linear::value(left->Term_0, f) + linear::value(right->Term_0, f)
                }
                &&& grammar::sum_tail(env, toks, left, i) == grammar::sum_tail(
                    env,
                    toks,
                    NodeV::Term(l),
                    j,
                )
            },
{
    reveal_with_fuel(grammar::sum_tail, 2);
    let minus = grammar::is_tok(toks, i, TokV::Minus);
    lemma_sum_means(toks, j, left, right, minus, f);
    let node = grammar::sum_of(toks, j, left, right, minus)->Ok_0;
    assert(linear::lin_wf(node->Term_0));
}

/// A product is multiplied out from the left: what stands before a star or a slash is
/// multiplied with or divided by the operand behind it, and the rest follows.
pub proof fn lemma_product_from_the_left(
    env: Sorts,
    toks: Toks,
    left: NodeV,
    i: int,
    right: NodeV,
    j: int,
    f: spec_fn(Seq<char>) -> real,
)
    requires
        grammar::is_tok(toks, i, TokV::Star) || grammar::is_tok(toks, i, TokV::Slash),
        grammar::unary_at(env, toks, i + 1) == Ok::<(NodeV, int), ErrV>((right, j)),
        i + 1 < j <= toks.len(),
        left matches NodeV::Term(a) ==> linear::lin_wf(a),
        right matches NodeV::Term(b) ==> linear::lin_wf(b),
        grammar::product_of(toks, j, left, right, grammar::is_tok(toks, i, TokV::Slash)) is Ok,
    ensures
        exists|l: LinV|
            #![trigger linear::lin_wf(l)]
            {
                &&& linear::lin_wf(l)
                &&& left is Term && right is Term
                &&& if grammar::is_tok(toks, i, TokV::Slash) {
                    linear::value(l, f) * linear::value(right->Term_0, f) == linear::value(
                        left->Term_0,
                        f,
                    )
                } else {
                    linear::value(l, f) == linear::value(left->Term_0, f) * linear::value(
                        right->Term_0,
                        f,
                    )
                }
                &&& grammar::product_tail(env, toks, left, i) == grammar::product_tail(
                    env,
                    toks,
                    NodeV::Term(l),
                    j,
                )
            },
{
    reveal_with_fuel(grammar::product_tail, 2);
    let divide = grammar::is_tok(toks, i, TokV::Slash);
    lemma_product_means(toks, j, left, right, divide, f);
    let node = grammar::product_of(toks, j, left, right, divide)->Ok_0;
    assert(linear::lin_wf(node->Term_0));
}

/// A sign in front of a number negates it or changes nothing.
pub proof fn lemma_sign_means(
    env: Sorts,
    toks: Toks,
    i: int,
    inner: NodeV,
    j: int,
    f: spec_fn(Seq<char>) -> real,
)
    requires
        grammar::is_tok(toks, i, TokV::Minus) || grammar::is_tok(toks, i, TokV::Plus),
        grammar::unary_at(env, toks, i + 1) == Ok::<(NodeV, int), ErrV>((inner, j)),
        inner matches NodeV::Term(a) ==> linear::lin_wf(a),
    ensures
        grammar::is_tok(toks, i, TokV::Plus) ==> grammar::unary_at(env, toks, i)
            == grammar::unary_at(env, toks, i + 1),
        grammar::is_tok(toks, i, TokV::Minus) ==> (grammar::unary_at(env, toks, i) matches Ok(
            (node, end),
        ) ==> {
            &&& end == j
            &&& inner is Term
            &&& node matches NodeV::Term(l) && linear::value(l, f) == -linear::value(
                inner->Term_0,
                f,
            )
        }),
{
    reveal_with_fuel(grammar::unary_at, 2);
    if inner is Term {
        linear::lemma_opposite(inner->Term_0, f);
    }
}

/// Brackets group: what stands between them is what the whole is, and a number or a text
/// stands for itself.
pub proof fn lemma_primary_means(env: Sorts, toks: Toks, i: int, v: Valuation)
    requires
        0 <= i < toks.len(),
    ensures
        toks[i].0 matches TokV::Number(k) ==> (grammar::primary_at(env, toks, i) matches Ok(
            (NodeV::Term(l), end),
        ) && end == i + 1 && linear::value(l, v.nums) == k.val()),
        toks[i].0 matches TokV::Str(s) ==> (grammar::primary_at(env, toks, i) matches Ok(
            (NodeV::Str(t), end),
        ) && end == i + 1 && s == t),
        toks[i].0 == TokV::LParen ==> (grammar::implies_at(env, toks, i + 1) matches Ok((inner, j))
            ==> if grammar::is_tok(toks, j, TokV::RParen) {
            grammar::primary_at(env, toks, i) == Ok::<(NodeV, int), ErrV>(
                (inner, j + 1),
            )
        } else {
            grammar::primary_at(env, toks, i) is Err
        }),
{
}

/// A minus sign in front of a number with small whole coefficients is accepted.
pub proof fn lemma_minus_accepted(env: Sorts, toks: Toks, i: int, a: LinV, j: int, p: int)
    requires
        grammar::is_tok(toks, i, TokV::Minus),
        grammar::unary_at(env, toks, i + 1) == Ok::<(NodeV, int), ErrV>(
            (NodeV::Term(a), j),
        ),
        completeness::small_form(a, p),
        0 <= p <= i128::MAX,
    ensures
        grammar::unary_at(env, toks, i) is Ok,
{
    reveal_with_fuel(grammar::unary_at, 2);
    completeness::lemma_small_opposite(a, p);
}

/// Where no operator of a level follows, what stands at the tighter level is what stands at
/// the looser one.
pub proof fn lemma_passed_through(env: Sorts, toks: Toks, i: int, node: NodeV, j: int)
    requires
        0 <= i < j <= toks.len(),
    ensures
        !grammar::is_tok(toks, i, TokV::Minus) && !grammar::is_tok(toks, i, TokV::Plus)
            ==> grammar::unary_at(env, toks, i) == grammar::primary_at(env, toks, i),
        grammar::unary_at(env, toks, i) == Ok::<(NodeV, int), ErrV>((node, j))
            && !grammar::is_tok(toks, j, TokV::Star) && !grammar::is_tok(toks, j, TokV::Slash)
            ==> grammar::product_at(env, toks, i) == Ok::<(NodeV, int), ErrV>(
            (node, j),
        ),
        grammar::product_at(env, toks, i) == Ok::<(NodeV, int), ErrV>((node, j))
            && !grammar::is_tok(toks, j, TokV::Plus) && !grammar::is_tok(toks, j, TokV::Minus)
            ==> grammar::sum_at(env, toks, i) == Ok::<(NodeV, int), ErrV>(
            (node, j),
        ),
        grammar::sum_at(env, toks, i) == Ok::<(NodeV, int), ErrV>((node, j))
            && !relation_behind(toks, j) ==> grammar::comparison_at(env, toks, i) == Ok::<
            (NodeV, int),
            ErrV,
        >((node, j)),
        !grammar::is_tok(toks, i, TokV::Not) ==> grammar::not_at(env, toks, i)
            == grammar::comparison_at(env, toks, i),
{
}

/// Is there a sign of comparison?
pub open spec fn relation_behind(toks: Toks, i: int) -> bool {
    ||| grammar::is_tok(toks, i, TokV::Le)
    ||| grammar::is_tok(toks, i, TokV::Lt)
    ||| grammar::is_tok(toks, i, TokV::Ge)
    ||| grammar::is_tok(toks, i, TokV::Gt)
    ||| grammar::is_tok(toks, i, TokV::Eq)
    ||| grammar::is_tok(toks, i, TokV::Ne)
}

/// Each sign of comparison stands for its own relation.
pub open spec fn sign_of(op: Relation) -> TokV {
    match op {
        Relation::Le => TokV::Le,
        Relation::Lt => TokV::Lt,
        Relation::Ge => TokV::Ge,
        Relation::Gt => TokV::Gt,
        Relation::Eq => TokV::Eq,
        Relation::Ne => TokV::Ne,
    }
}

/// Two numbers with a sign of comparison between them are compared by it: the whole is a
/// condition that is true where their values compare so.
pub proof fn lemma_numbers_compared_at(
    env: Sorts,
    toks: Toks,
    i: int,
    a: LinV,
    j: int,
    op: Relation,
    b: LinV,
    k: int,
    v: Valuation,
)
    requires
        0 <= i < j,
        grammar::sum_at(env, toks, i) == Ok::<(NodeV, int), ErrV>(
            (NodeV::Term(a), j),
        ),
        grammar::is_tok(toks, j, sign_of(op)),
        grammar::sum_at(env, toks, j + 1) == Ok::<(NodeV, int), ErrV>(
            (NodeV::Term(b), k),
        ),
        linear::lin_wf(a),
        linear::lin_wf(b),
        grammar::comparison(env, toks, k, NodeV::Term(a), op, NodeV::Term(b)) is Ok,
    ensures
        grammar::comparison_at(env, toks, i) matches Ok((node, end)) && end == k && node is Formula
            && true_in(node, v) == grammar::compares(
            op,
            linear::value(a, v.nums),
            linear::value(b, v.nums),
        ),
{
    lemma_comparison_means(env, toks, k, NodeV::Term(a), op, NodeV::Term(b), v);
}

/// What else stands on both sides of a sign of comparison is compared by it too.
pub proof fn lemma_compared_at(
    env: Sorts,
    toks: Toks,
    i: int,
    left: NodeV,
    j: int,
    op: Relation,
    right: NodeV,
    k: int,
)
    requires
        0 <= i < j,
        grammar::sum_at(env, toks, i) == Ok::<(NodeV, int), ErrV>((left, j)),
        grammar::is_tok(toks, j, sign_of(op)),
        grammar::sum_at(env, toks, j + 1) == Ok::<(NodeV, int), ErrV>((right, k)),
    ensures
        match grammar::comparison(env, toks, k, left, op, right) {
            Ok(e) => grammar::comparison_at(env, toks, i) == Ok::<(NodeV, int), ErrV>(
                (NodeV::Formula(e), k),
            ),
            Err(_) => grammar::comparison_at(env, toks, i) is Err,
        },
{
}

/// A sum begins with a product, and a product with a signed operand.
pub proof fn lemma_begins_with(env: Sorts, toks: Toks, i: int, left: NodeV, j: int)
    requires
        0 <= i < j <= toks.len(),
    ensures
        grammar::product_at(env, toks, i) == Ok::<(NodeV, int), ErrV>((left, j))
            ==> grammar::sum_at(env, toks, i) == grammar::sum_tail(env, toks, left, j),
        grammar::unary_at(env, toks, i) == Ok::<(NodeV, int), ErrV>((left, j))
            ==> grammar::product_at(env, toks, i) == grammar::product_tail(env, toks, left, j),
{
}

/// A text denotes a formula exactly where all of it is one condition.
pub proof fn lemma_whole_text(src: Seq<char>, env: Sorts)
    ensures
        grammar::parsed(src, env) matches Ok(e) ==> {
            &&& lexer::tokens_from(src, 0) matches Ok(toks)
            &&& toks.len() > 0
            &&& grammar::implies_at(env, toks, 0) matches Ok((node, end))
            &&& end >= toks.len()
            &&& node == NodeV::Formula(e)
        },
        lexer::tokens_from(src, 0) matches Ok(toks) ==> (grammar::implies_at(
            env,
            toks,
            0,
        ) matches Ok((node, end)) ==> (toks.len() > 0 && end == toks.len() && node is Formula
            ==> grammar::parsed(src, env) is Ok)),
{
    reveal(grammar::parsed);
}

/// A number over a number that is not zero is a quotient, as long as the arithmetic stays in
/// range; over zero, or over something that varies, it is none.
pub proof fn lemma_quotient_combines(toks: Toks, i: int, a: LinV, b: LinV)
    requires
        linear::lin_wf(a),
        linear::lin_wf(b),
    ensures
        ({
            let quotient = grammar::product_of(toks, i, NodeV::Term(a), NodeV::Term(b), true);
            let inverse = Rat::of(1, 1).over(b.constant);
            &&& b.terms.len() > 0 ==> quotient is Err
            &&& b.terms.len() == 0 && b.constant.val() == 0 as real ==> quotient is Err
            &&& b.terms.len() == 0 && inverse is Some && linear::scaled(a, inverse->0) is Some
                ==> quotient is Ok
        }),
{
    reveal(grammar::product_of);
    Rat::lemma_whole(1);
    Rat::of(1, 1).lemma_over(b.constant);
}

/// A name stands for what it names, and no other token starts an operand.
pub proof fn lemma_name_at(env: Sorts, toks: Toks, i: int)
    ensures
        0 <= i < toks.len() && toks[i].0 is Ident ==> match grammar::name_node(
            env,
            toks,
            i + 1,
            toks[i].0->Ident_0,
        ) {
            Ok(node) => grammar::primary_at(env, toks, i) == Ok::<(NodeV, int), ErrV>(
                (node, i + 1),
            ),
            Err(e) => grammar::primary_at(env, toks, i) == Err::<(NodeV, int), ErrV>(e),
        },
        0 <= i < toks.len() && !(toks[i].0 is Ident) && !(toks[i].0 is Number) && !(toks[i].0
            is Str) && toks[i].0 != TokV::LParen ==> (grammar::primary_at(env, toks, i) matches Err(
            e,
        ) && e.position == toks[i].1),
        i >= toks.len() ==> grammar::primary_at(env, toks, i) is Err,
{
}

/// An error in an operand is an error of the whole, and the same one.
pub proof fn lemma_errors_pass(env: Sorts, toks: Toks, i: int, e: ErrV)
    ensures
        grammar::primary_at(env, toks, i) == Err::<(NodeV, int), ErrV>(e) && !grammar::is_tok(
            toks,
            i,
            TokV::Minus,
        ) && !grammar::is_tok(toks, i, TokV::Plus) ==> grammar::unary_at(env, toks, i) == Err::<
            (NodeV, int),
            ErrV,
        >(e),
        grammar::unary_at(env, toks, i) == Err::<(NodeV, int), ErrV>(e) ==> grammar::product_at(
            env,
            toks,
            i,
        ) == Err::<(NodeV, int), ErrV>(e),
        grammar::product_at(env, toks, i) == Err::<(NodeV, int), ErrV>(e) ==> grammar::sum_at(
            env,
            toks,
            i,
        ) == Err::<(NodeV, int), ErrV>(e),
        grammar::sum_at(env, toks, i) == Err::<(NodeV, int), ErrV>(e) ==> grammar::comparison_at(
            env,
            toks,
            i,
        ) == Err::<(NodeV, int), ErrV>(e),
        grammar::not_at(env, toks, i) == Err::<(NodeV, int), ErrV>(e) ==> grammar::and_at(
            env,
            toks,
            i,
        ) == Err::<(NodeV, int), ErrV>(e),
        grammar::and_at(env, toks, i) == Err::<(NodeV, int), ErrV>(e) ==> grammar::or_at(
            env,
            toks,
            i,
        ) == Err::<(NodeV, int), ErrV>(e),
        grammar::or_at(env, toks, i) == Err::<(NodeV, int), ErrV>(e) ==> grammar::implies_at(
            env,
            toks,
            i,
        ) == Err::<(NodeV, int), ErrV>(e),
{
}

} // verus!
