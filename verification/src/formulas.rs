//! What whole formulas mean: a formula in which every operation stands in brackets, where it
//! is accepted, means what its operations say.

use vstd::prelude::*;

use crate::grammar;
use crate::grammar::{NodeV, Parsed, Relation, Toks};
use crate::lexer;
use crate::lexer::{ErrV, TokV};
use crate::linear;
use crate::logic::VarTypeV;
use crate::meaning;
use crate::names;
use crate::num::Rat;
use crate::semantics;
use crate::semantics::{Sorts, Valuation};
use crate::text;
use crate::theory;

verus! {

/// A formula as it is meant.
pub enum Meant {
    Number(Rat),
    Name(Seq<char>),
    Sum(Box<Meant>, Box<Meant>),
    Difference(Box<Meant>, Box<Meant>),
    Product(Box<Meant>, Box<Meant>),
    Compared(Relation, Box<Meant>, Box<Meant>),
    Not(Box<Meant>),
    And(Box<Meant>, Box<Meant>),
    Or(Box<Meant>, Box<Meant>),
    Implies(Box<Meant>, Box<Meant>),
    Iff(Box<Meant>, Box<Meant>),
}

/// Two operands with a sign between them, in brackets.
pub open spec fn bracketed(a: Seq<TokV>, sign: TokV, b: Seq<TokV>) -> Seq<TokV> {
    seq![TokV::LParen] + a + seq![sign] + b + seq![TokV::RParen]
}

/// The tokens of a formula in which every operation stands in brackets.
pub open spec fn spelled(t: Meant) -> Seq<TokV>
    decreases t,
{
    match t {
        Meant::Number(k) => seq![TokV::Number(k)],
        Meant::Name(x) => seq![TokV::Ident(x)],
        Meant::Sum(a, b) => bracketed(spelled(*a), TokV::Plus, spelled(*b)),
        Meant::Difference(a, b) => bracketed(spelled(*a), TokV::Minus, spelled(*b)),
        Meant::Product(a, b) => bracketed(spelled(*a), TokV::Star, spelled(*b)),
        Meant::Compared(op, a, b) => bracketed(spelled(*a), meaning::sign_of(op), spelled(*b)),
        Meant::Not(a) => seq![TokV::LParen, TokV::Not] + spelled(*a) + seq![TokV::RParen],
        Meant::And(a, b) => bracketed(spelled(*a), TokV::And, spelled(*b)),
        Meant::Or(a, b) => bracketed(spelled(*a), TokV::Or, spelled(*b)),
        Meant::Implies(a, b) => bracketed(spelled(*a), TokV::Arrow, spelled(*b)),
        Meant::Iff(a, b) => bracketed(spelled(*a), TokV::Iff, spelled(*b)),
    }
}

/// Is the formula a number, over declared numeric variables?
pub open spec fn numeric(env: Sorts, t: Meant) -> bool
    decreases t,
{
    match t {
        Meant::Number(k) => k.wf(),
        Meant::Name(x) => plain_name(x) && (names::lookup(env, x) == Some(VarTypeV::Int)
            || names::lookup(env, x) == Some(VarTypeV::Real)),
        Meant::Sum(a, b) => numeric(env, *a) && numeric(env, *b),
        Meant::Difference(a, b) => numeric(env, *a) && numeric(env, *b),
        Meant::Product(a, b) => numeric(env, *a) && numeric(env, *b),
        _ => false,
    }
}

/// Is the formula a condition, over declared variables?
pub open spec fn boolean(env: Sorts, t: Meant) -> bool
    decreases t,
{
    match t {
        Meant::Name(x) => plain_name(x) && names::lookup(env, x) == Some(VarTypeV::Bool),
        Meant::Compared(_, a, b) => numeric(env, *a) && numeric(env, *b),
        Meant::Not(a) => boolean(env, *a),
        Meant::And(a, b) => boolean(env, *a) && boolean(env, *b),
        Meant::Or(a, b) => boolean(env, *a) && boolean(env, *b),
        Meant::Implies(a, b) => boolean(env, *a) && boolean(env, *b),
        Meant::Iff(a, b) => boolean(env, *a) && boolean(env, *b),
        _ => false,
    }
}

/// Is the name none of the words for a constant?
pub open spec fn plain_name(x: Seq<char>) -> bool {
    text::lower(x) != "true"@ && text::lower(x) != "false"@
}

/// The number that a formula denotes in a world.
pub open spec fn number_of(t: Meant, v: Valuation) -> real
    decreases t,
{
    match t {
        Meant::Number(k) => k.val(),
        Meant::Name(x) => (v.nums)(x),
        Meant::Sum(a, b) => number_of(*a, v) + number_of(*b, v),
        Meant::Difference(a, b) => number_of(*a, v) - number_of(*b, v),
        Meant::Product(a, b) => number_of(*a, v) * number_of(*b, v),
        _ => 0 as real,
    }
}

/// Is a formula true in a world?
pub open spec fn truth_of(t: Meant, v: Valuation) -> bool
    decreases t,
{
    match t {
        Meant::Name(x) => (v.bools)(x),
        Meant::Compared(op, a, b) => {
            let (x, y) = (number_of(*a, v), number_of(*b, v));
            match op {
                Relation::Le => x <= y,
                Relation::Lt => x < y,
                Relation::Ge => x >= y,
                Relation::Gt => x > y,
                Relation::Eq => x == y,
                Relation::Ne => x != y,
            }
        },
        Meant::Not(a) => !truth_of(*a, v),
        Meant::And(a, b) => truth_of(*a, v) && truth_of(*b, v),
        Meant::Or(a, b) => truth_of(*a, v) || truth_of(*b, v),
        Meant::Implies(a, b) => truth_of(*a, v) ==> truth_of(*b, v),
        Meant::Iff(a, b) => truth_of(*a, v) == truth_of(*b, v),
        _ => false,
    }
}

/// Does the operand mean what the formula says?
pub open spec fn means(env: Sorts, t: Meant, node: NodeV, v: Valuation) -> bool {
    &&& numeric(env, t) ==> (node matches NodeV::Term(l) && linear::lin_wf(l) && linear::value(
        l,
        v.nums,
    ) == number_of(t, v))
    &&& boolean(env, t) ==> (node matches NodeV::Formula(e) && semantics::holds(e, v) == truth_of(
        t,
        v,
    ))
}

/// Do the tokens from the position on read so?
pub open spec fn reads(toks: Toks, i: int, w: Seq<TokV>) -> bool {
    &&& 0 <= i
    &&& i + w.len() <= toks.len()
    &&& forall|k: int| 0 <= k < w.len() ==> toks[i + k].0 == #[trigger] w[k]
}

proof fn lemma_reads_parts(toks: Toks, i: int, a: Seq<TokV>, sign: TokV, b: Seq<TokV>)
    requires
        reads(toks, i, bracketed(a, sign, b)),
    ensures
        toks[i].0 == TokV::LParen,
        reads(toks, i + 1, a),
        grammar::is_tok(toks, i + 1 + a.len(), sign),
        reads(toks, i + 2 + a.len(), b),
        grammar::is_tok(toks, i + 2 + a.len() + b.len(), TokV::RParen),
{
    let w = bracketed(a, sign, b);
    let (m, n) = (a.len() as int, b.len() as int);
    assert(w[0] == TokV::LParen && toks[i + 0].0 == w[0]);
    assert forall|k: int| 0 <= k < m implies toks[i + 1 + k].0 == #[trigger] a[k] by {
        assert(w[1 + k] == a[k]);
        assert(toks[i + (1 + k)].0 == w[1 + k]);
    }
    assert(w[1 + m] == sign && toks[i + (1 + m)].0 == w[1 + m]);
    assert forall|k: int| 0 <= k < n implies toks[i + 2 + m + k].0 == #[trigger] b[k] by {
        assert(w[2 + m + k] == b[k]);
        assert(toks[i + (2 + m + k)].0 == w[2 + m + k]);
    }
    assert(w[2 + m + n] == TokV::RParen && toks[i + (2 + m + n)].0 == w[2 + m + n]);
}

proof fn lemma_first(t: Meant)
    ensures
        spelled(t).len() > 0,
        spelled(t)[0] is Number || spelled(t)[0] is Ident || spelled(t)[0] == TokV::LParen,
{
}

// ── Climbing through the levels ─────────────────────────────────────────────────

/// Does an operand start here?
spec fn starts(toks: Toks, i: int) -> bool {
    0 <= i < toks.len() && (toks[i].0 is Number || toks[i].0 is Ident || toks[i].0 == TokV::LParen)
}

/// Does the bracket close here?
spec fn closed_at(toks: Toks, r: Parsed, i: int) -> bool {
    r matches Ok((_, k)) ==> i < k < toks.len() && toks[k].0 == TokV::RParen
}

proof fn lemma_above_or(env: Sorts, toks: Toks, i: int)
    requires
        starts(toks, i) || grammar::is_tok(toks, i, TokV::Not),
        closed_at(toks, grammar::or_at(env, toks, i), i),
    ensures
        grammar::implies_at(env, toks, i) == grammar::or_at(env, toks, i),
{
}

proof fn lemma_above_and(env: Sorts, toks: Toks, i: int)
    requires
        starts(toks, i) || grammar::is_tok(toks, i, TokV::Not),
        closed_at(toks, grammar::and_at(env, toks, i), i),
    ensures
        grammar::implies_at(env, toks, i) == grammar::and_at(env, toks, i),
{
    if let Ok((n, k)) = grammar::and_at(env, toks, i) {
        assert(grammar::or_tail(env, toks, k) == Ok::<(Seq<NodeV>, int), ErrV>((Seq::empty(), k)));
    }
    assert(grammar::or_at(env, toks, i) == grammar::and_at(env, toks, i));
    lemma_above_or(env, toks, i);
}

proof fn lemma_above_not(env: Sorts, toks: Toks, i: int)
    requires
        starts(toks, i) || grammar::is_tok(toks, i, TokV::Not),
        closed_at(toks, grammar::not_at(env, toks, i), i),
    ensures
        grammar::implies_at(env, toks, i) == grammar::not_at(env, toks, i),
{
    if let Ok((n, k)) = grammar::not_at(env, toks, i) {
        assert(grammar::and_tail(env, toks, k) == Ok::<(Seq<NodeV>, int), ErrV>(
            (Seq::empty(), k),
        ));
    }
    assert(grammar::and_at(env, toks, i) == grammar::not_at(env, toks, i));
    lemma_above_and(env, toks, i);
}

proof fn lemma_above_comparison(env: Sorts, toks: Toks, i: int)
    requires
        starts(toks, i),
        closed_at(toks, grammar::comparison_at(env, toks, i), i),
    ensures
        grammar::implies_at(env, toks, i) == grammar::comparison_at(env, toks, i),
{
    assert(grammar::not_at(env, toks, i) == grammar::comparison_at(env, toks, i));
    lemma_above_not(env, toks, i);
}

proof fn lemma_above_sum(env: Sorts, toks: Toks, i: int)
    requires
        starts(toks, i),
        closed_at(toks, grammar::sum_at(env, toks, i), i),
    ensures
        grammar::implies_at(env, toks, i) == grammar::sum_at(env, toks, i),
{
    assert(grammar::comparison_at(env, toks, i) == grammar::sum_at(env, toks, i));
    lemma_above_comparison(env, toks, i);
}

/// What an operand in brackets, a number or a name is at the tighter levels: the same, as far
/// as no sign of that level follows.
proof fn lemma_operand(env: Sorts, toks: Toks, i: int)
    requires
        starts(toks, i),
        grammar::primary_at(env, toks, i) matches Ok((_, k)) ==> i < k < toks.len(),
    ensures
        grammar::unary_at(env, toks, i) == grammar::primary_at(env, toks, i),
        match grammar::primary_at(env, toks, i) {
            Err(e) => {
                &&& grammar::product_at(env, toks, i) == Parsed::Err(e)
                &&& grammar::sum_at(env, toks, i) == Parsed::Err(e)
                &&& grammar::not_at(env, toks, i) == Parsed::Err(e)
                &&& grammar::and_at(env, toks, i) == Parsed::Err(e)
                &&& grammar::or_at(env, toks, i) == Parsed::Err(e)
                &&& grammar::implies_at(env, toks, i) == Parsed::Err(e)
            },
            Ok((n, k)) => {
                &&& toks[k].0 != TokV::Star && toks[k].0 != TokV::Slash ==> grammar::product_at(
                    env,
                    toks,
                    i,
                ) == Parsed::Ok((n, k))
                &&& toks[k].0 != TokV::Star && toks[k].0 != TokV::Slash && toks[k].0 != TokV::Plus
                    && toks[k].0 != TokV::Minus ==> grammar::sum_at(env, toks, i) == Parsed::Ok(
                    (n, k),
                )
                &&& level(toks[k].0) >= 6 ==> grammar::not_at(env, toks, i) == Parsed::Ok((n, k))
                &&& level(toks[k].0) >= 7 ==> grammar::and_at(env, toks, i) == Parsed::Ok((n, k))
                &&& level(toks[k].0) >= 8 ==> grammar::or_at(env, toks, i) == Parsed::Ok((n, k))
                &&& level(toks[k].0) >= 9 ==> grammar::implies_at(env, toks, i) == Parsed::Ok((n, k))
            },
        },
{
    if let Ok((n, k)) = grammar::primary_at(env, toks, i) {
        let last = toks[k].0;
        if last != TokV::Star && last != TokV::Slash {
            assert(grammar::product_tail(env, toks, n, k) == Parsed::Ok((n, k)));
            if last != TokV::Plus && last != TokV::Minus {
                assert(grammar::sum_tail(env, toks, n, k) == Parsed::Ok((n, k)));
                if level(last) >= 6 {
                    assert(grammar::comparison_at(env, toks, i) == Parsed::Ok((n, k)));
                    assert(grammar::not_at(env, toks, i) == Parsed::Ok((n, k)));
                    if level(last) >= 7 {
                        assert(grammar::and_tail(env, toks, k) == Ok::<(Seq<NodeV>, int), ErrV>(
                            (Seq::empty(), k),
                        ));
                        if level(last) >= 8 {
                            assert(grammar::or_tail(env, toks, k) == Ok::<
                                (Seq<NodeV>, int),
                                ErrV,
                            >((Seq::empty(), k)));
                        }
                    }
                }
            }
        }
    }
}

/// How loosely a sign binds.
pub open spec fn level(t: TokV) -> int {
    match t {
        TokV::Star => 3,
        TokV::Slash => 3,
        TokV::Plus => 4,
        TokV::Minus => 4,
        TokV::Le => 5,
        TokV::Lt => 5,
        TokV::Ge => 5,
        TokV::Gt => 5,
        TokV::Eq => 5,
        TokV::Ne => 5,
        TokV::And => 6,
        TokV::Or => 7,
        TokV::Arrow => 8,
        TokV::Iff => 8,
        _ => 9,
    }
}

// ── Operations ──────────────────────────────────────────────────────────────────

/// Two operands with a sign between them, in brackets: the operands are `na` and `nb`.
spec fn two_operands(
    env: Sorts,
    toks: Toks,
    i: int,
    na: NodeV,
    j: int,
    sign: TokV,
    nb: NodeV,
    k: int,
) -> bool {
    &&& 0 <= i && i + 1 < j && j + 1 < k < toks.len()
    &&& toks[i].0 == TokV::LParen
    &&& starts(toks, i + 1)
    &&& starts(toks, j + 1)
    &&& grammar::primary_at(env, toks, i + 1) == Parsed::Ok((na, j))
    &&& toks[j].0 == sign
    &&& grammar::primary_at(env, toks, j + 1) == Parsed::Ok((nb, k))
    &&& toks[k].0 == TokV::RParen
}

proof fn lemma_sum_at(
    env: Sorts,
    toks: Toks,
    i: int,
    na: NodeV,
    j: int,
    sign: TokV,
    nb: NodeV,
    k: int,
)
    requires
        two_operands(env, toks, i, na, j, sign, nb, k),
        sign == TokV::Plus || sign == TokV::Minus,
    ensures
        match grammar::sum_of(toks, k, na, nb, sign == TokV::Minus) {
            Ok(n) => grammar::primary_at(env, toks, i) == Parsed::Ok((n, k + 1)),
            Err(e) => grammar::primary_at(env, toks, i) == Parsed::Err(e),
        },
{
    lemma_operand(env, toks, i + 1);
    lemma_operand(env, toks, j + 1);
    reveal_with_fuel(grammar::sum_tail, 2);
    assert(grammar::sum_at(env, toks, i + 1) == grammar::sum_tail(env, toks, na, j));
    lemma_above_sum(env, toks, i + 1);
}

proof fn lemma_product_at(
    env: Sorts,
    toks: Toks,
    i: int,
    na: NodeV,
    j: int,
    nb: NodeV,
    k: int,
)
    requires
        two_operands(env, toks, i, na, j, TokV::Star, nb, k),
    ensures
        match grammar::product_of(toks, k, na, nb, false) {
            Ok(n) => grammar::primary_at(env, toks, i) == Parsed::Ok((n, k + 1)),
            Err(e) => grammar::primary_at(env, toks, i) == Parsed::Err(e),
        },
{
    lemma_operand(env, toks, i + 1);
    lemma_operand(env, toks, j + 1);
    reveal_with_fuel(grammar::product_tail, 2);
    assert(grammar::product_at(env, toks, i + 1) == grammar::product_tail(env, toks, na, j));
    if let Ok(n) = grammar::product_of(toks, k, na, nb, false) {
        assert(grammar::sum_tail(env, toks, n, k) == Parsed::Ok((n, k)));
    }
    lemma_above_sum(env, toks, i + 1);
}

proof fn lemma_compared(
    env: Sorts,
    toks: Toks,
    i: int,
    na: NodeV,
    j: int,
    op: Relation,
    nb: NodeV,
    k: int,
)
    requires
        two_operands(env, toks, i, na, j, meaning::sign_of(op), nb, k),
    ensures
        match grammar::comparison(env, toks, k, na, op, nb) {
            Ok(e) => grammar::primary_at(env, toks, i) == Parsed::Ok((NodeV::Formula(e), k + 1)),
            Err(e) => grammar::primary_at(env, toks, i) == Parsed::Err(e),
        },
{
    lemma_operand(env, toks, i + 1);
    lemma_operand(env, toks, j + 1);
    assert(grammar::relation_at(toks, j) == Some(op));
    lemma_above_comparison(env, toks, i + 1);
}

proof fn lemma_joined_by(
    env: Sorts,
    toks: Toks,
    i: int,
    na: NodeV,
    j: int,
    sign: TokV,
    nb: NodeV,
    k: int,
    v: Valuation,
)
    requires
        two_operands(env, toks, i, na, j, sign, nb, k),
        sign == TokV::And || sign == TokV::Or,
    ensures
        grammar::primary_at(env, toks, i) matches Ok((n, end)) ==> {
            &&& end == k + 1
            &&& n is Formula
            &&& meaning::true_in(n, v) == if sign == TokV::And {
                meaning::true_in(na, v) && meaning::true_in(nb, v)
            } else {
                meaning::true_in(na, v) || meaning::true_in(nb, v)
            }
        },
        na is Formula && nb is Formula ==> grammar::primary_at(env, toks, i) is Ok,
{
    lemma_operand(env, toks, i + 1);
    lemma_operand(env, toks, j + 1);
    let more = seq![nb];
    assert(more =~= seq![nb] + Seq::<NodeV>::empty());
    assert(more[0] == nb);
    if sign == TokV::And {
        assert(grammar::and_tail(env, toks, k) == Ok::<(Seq<NodeV>, int), ErrV>((Seq::empty(), k)));
        assert(grammar::and_tail(env, toks, j) == Ok::<(Seq<NodeV>, int), ErrV>((more, k))) by {
            reveal_with_fuel(grammar::and_tail, 2);
        }
        meaning::lemma_and_means(env, toks, i + 1, na, j, more, k, v);
        lemma_above_and(env, toks, i + 1);
    } else {
        assert(grammar::or_tail(env, toks, k) == Ok::<(Seq<NodeV>, int), ErrV>((Seq::empty(), k)));
        assert(grammar::or_tail(env, toks, j) == Ok::<(Seq<NodeV>, int), ErrV>((more, k))) by {
            reveal_with_fuel(grammar::or_tail, 2);
        }
        meaning::lemma_or_means(env, toks, i + 1, na, j, more, k, v);
        lemma_above_or(env, toks, i + 1);
    }
}

proof fn lemma_arrow(
    env: Sorts,
    toks: Toks,
    i: int,
    na: NodeV,
    j: int,
    sign: TokV,
    nb: NodeV,
    k: int,
    v: Valuation,
)
    requires
        two_operands(env, toks, i, na, j, sign, nb, k),
        sign == TokV::Arrow || sign == TokV::Iff,
    ensures
        grammar::primary_at(env, toks, i) matches Ok((n, end)) ==> {
            &&& end == k + 1
            &&& n is Formula
            &&& meaning::true_in(n, v) == if sign == TokV::Arrow {
                meaning::true_in(na, v) ==> meaning::true_in(nb, v)
            } else {
                meaning::true_in(na, v) == meaning::true_in(nb, v)
            }
        },
        na is Formula && nb is Formula ==> grammar::primary_at(env, toks, i) is Ok,
{
    lemma_operand(env, toks, i + 1);
    lemma_operand(env, toks, j + 1);
    meaning::lemma_arrow_means(env, toks, i + 1, na, j, nb, k, v);
}

/// A second operand that is an error makes the whole one.
proof fn lemma_second_fails(
    env: Sorts,
    toks: Toks,
    i: int,
    na: NodeV,
    j: int,
    sign: TokV,
)
    requires
        0 <= i,
        i + 1 < j,
        j + 1 < toks.len(),
        toks[i].0 == TokV::LParen,
        starts(toks, i + 1),
        starts(toks, j + 1),
        grammar::primary_at(env, toks, i + 1) == Parsed::Ok((na, j)),
        toks[j].0 == sign,
        3 <= level(sign) <= 8,
        sign != TokV::Slash,
        grammar::primary_at(env, toks, j + 1) is Err,
    ensures
        grammar::primary_at(env, toks, i) is Err,
{
    lemma_operand(env, toks, i + 1);
    lemma_operand(env, toks, j + 1);
    if level(sign) == 3 {
        assert(grammar::product_at(env, toks, i + 1) == grammar::product_tail(env, toks, na, j));
        assert(grammar::sum_at(env, toks, i + 1) is Err);
        lemma_above_sum(env, toks, i + 1);
    } else if level(sign) == 4 {
        assert(grammar::sum_at(env, toks, i + 1) == grammar::sum_tail(env, toks, na, j));
        lemma_above_sum(env, toks, i + 1);
    } else if level(sign) == 5 {
        assert(grammar::relation_at(toks, j) is Some);
        lemma_above_comparison(env, toks, i + 1);
    } else if level(sign) == 6 {
        assert(grammar::and_tail(env, toks, j) is Err);
        lemma_above_and(env, toks, i + 1);
    } else if level(sign) == 7 {
        assert(grammar::or_tail(env, toks, j) is Err);
        lemma_above_or(env, toks, i + 1);
    }
}

/// A first operand that is an error makes the whole one.
proof fn lemma_first_fails(env: Sorts, toks: Toks, i: int)
    requires
        0 <= i,
        toks[i].0 == TokV::LParen,
        starts(toks, i + 1),
        grammar::primary_at(env, toks, i + 1) is Err,
    ensures
        grammar::primary_at(env, toks, i) is Err,
{
    lemma_operand(env, toks, i + 1);
}

/// The negation of an operand, in brackets.
proof fn lemma_negated_at(env: Sorts, toks: Toks, i: int, na: NodeV, k: int, v: Valuation)
    requires
        0 <= i,
        i + 2 < k < toks.len(),
        toks[i].0 == TokV::LParen,
        grammar::is_tok(toks, i + 1, TokV::Not),
        starts(toks, i + 2),
        grammar::primary_at(env, toks, i + 2) == Parsed::Ok((na, k)),
        toks[k].0 == TokV::RParen,
    ensures
        grammar::primary_at(env, toks, i) matches Ok((n, end)) ==> {
            &&& end == k + 1
            &&& n is Formula
            &&& meaning::true_in(n, v) == !meaning::true_in(na, v)
        },
        na is Formula ==> grammar::primary_at(env, toks, i) is Ok,
{
    lemma_operand(env, toks, i + 2);
    meaning::lemma_not_means(env, toks, i + 1, na, k, v);
    lemma_above_not(env, toks, i + 1);
}

proof fn lemma_negated_fails(env: Sorts, toks: Toks, i: int)
    requires
        0 <= i,
        i + 2 < toks.len(),
        toks[i].0 == TokV::LParen,
        grammar::is_tok(toks, i + 1, TokV::Not),
        starts(toks, i + 2),
        grammar::primary_at(env, toks, i + 2) is Err,
    ensures
        grammar::primary_at(env, toks, i) is Err,
{
    lemma_operand(env, toks, i + 2);
    assert(grammar::not_at(env, toks, i + 1) is Err);
    lemma_above_not(env, toks, i + 1);
}

proof fn lemma_negated_reads(toks: Toks, i: int, a: Meant)
    requires
        reads(toks, i, spelled(Meant::Not(Box::new(a)))),
    ensures
        toks[i].0 == TokV::LParen,
        grammar::is_tok(toks, i + 1, TokV::Not),
        reads(toks, i + 2, spelled(a)),
        starts(toks, i + 2),
        grammar::is_tok(toks, i + 2 + spelled(a).len(), TokV::RParen),
        spelled(Meant::Not(Box::new(a))).len() == spelled(a).len() + 3,
{
    let w = spelled(Meant::Not(Box::new(a)));
    let m = spelled(a).len() as int;
    lemma_first(a);
    assert(w =~= seq![TokV::LParen, TokV::Not] + spelled(a) + seq![TokV::RParen]);
    assert(w[0] == TokV::LParen && w[1] == TokV::Not && w[2] == spelled(a)[0]);
    assert(toks[i + 0].0 == w[0] && toks[i + 1].0 == w[1] && toks[i + 2].0 == w[2]);
    assert(w[2 + m] == TokV::RParen && toks[i + (2 + m)].0 == w[2 + m]);
    assert forall|k: int| 0 <= k < m implies toks[i + 2 + k].0 == #[trigger] spelled(a)[k] by {
        assert(w[2 + k] == spelled(a)[k]);
        assert(toks[i + (2 + k)].0 == w[2 + k]);
    }
}

/// Are the operands, where they are accepted, what they are meant to be?
spec fn parts_mean(
    env: Sorts,
    toks: Toks,
    i: int,
    a: Meant,
    sign: TokV,
    b: Meant,
    v: Valuation,
) -> bool {
    let j = i + 1 + spelled(a).len();
    let k = j + 1 + spelled(b).len();
    exists|na: NodeV, nb: NodeV| #[trigger]
        two_operands(env, toks, i, na, j, sign, nb, k) && means(env, a, na, v) && means(
            env,
            b,
            nb,
            v,
        )
}

/// Is the operand at the position, where it is accepted, what it is meant to be?
#[verifier::opaque]
pub open spec fn part_means(env: Sorts, toks: Toks, i: int, t: Meant, v: Valuation) -> bool {
    grammar::primary_at(env, toks, i) matches Ok((node, end)) ==> end == i + spelled(t).len()
        && means(env, t, node, v)
}

/// Is the formula made of these operands by that sign?
spec fn made_of(t: Meant, a: Meant, sign: TokV, b: Meant) -> bool {
    match t {
        Meant::Sum(x, y) => *x == a && *y == b && sign == TokV::Plus,
        Meant::Difference(x, y) => *x == a && *y == b && sign == TokV::Minus,
        Meant::Product(x, y) => *x == a && *y == b && sign == TokV::Star,
        Meant::Compared(op, x, y) => *x == a && *y == b && sign == meaning::sign_of(op),
        Meant::And(x, y) => *x == a && *y == b && sign == TokV::And,
        Meant::Or(x, y) => *x == a && *y == b && sign == TokV::Or,
        Meant::Implies(x, y) => *x == a && *y == b && sign == TokV::Arrow,
        Meant::Iff(x, y) => *x == a && *y == b && sign == TokV::Iff,
        _ => false,
    }
}

proof fn lemma_parts_mean(
    env: Sorts,
    toks: Toks,
    i: int,
    a: Meant,
    sign: TokV,
    b: Meant,
    v: Valuation,
)
    requires
        reads(toks, i, bracketed(spelled(a), sign, spelled(b))),
        3 <= level(sign) <= 8,
        sign != TokV::Slash,
        part_means(env, toks, i + 1, a, v),
        part_means(env, toks, i + 2 + spelled(a).len(), b, v),
    ensures
        grammar::primary_at(env, toks, i) is Ok ==> parts_mean(env, toks, i, a, sign, b, v),
{
    lemma_operands_stand(toks, i, a, sign, b);
    let j = i + 1 + spelled(a).len();
    let k = j + 1 + spelled(b).len();
    reveal(part_means);
    let (first, second) = (
        grammar::primary_at(env, toks, i + 1),
        grammar::primary_at(env, toks, j + 1),
    );
    if first is Err {
        lemma_first_fails(env, toks, i);
    } else if second is Err {
        lemma_second_fails(env, toks, i, (first->Ok_0).0, j, sign);
    } else {
        assert(two_operands(env, toks, i, (first->Ok_0).0, j, sign, (second->Ok_0).0, k));
    }
}

proof fn lemma_operands_stand(toks: Toks, i: int, a: Meant, sign: TokV, b: Meant)
    requires
        reads(toks, i, bracketed(spelled(a), sign, spelled(b))),
    ensures
        ({
            let j = i + 1 + spelled(a).len();
            let k = j + 1 + spelled(b).len();
            &&& 0 <= i && i + 1 < j && j + 1 < k < toks.len()
            &&& toks[i].0 == TokV::LParen
            &&& starts(toks, i + 1)
            &&& toks[j].0 == sign
            &&& starts(toks, j + 1)
            &&& toks[k].0 == TokV::RParen
        }),
{
    let j = i + 1 + spelled(a).len();
    lemma_reads_parts(toks, i, spelled(a), sign, spelled(b));
    lemma_first(a);
    lemma_first(b);
    assert(toks[i + 1 + 0].0 == spelled(a)[0]);
    assert(toks[j + 1 + 0].0 == spelled(b)[0]);
}

proof fn lemma_operation(
    env: Sorts,
    toks: Toks,
    i: int,
    t: Meant,
    a: Meant,
    sign: TokV,
    b: Meant,
    v: Valuation,
)
    requires
        parts_mean(env, toks, i, a, sign, b, v),
        numeric(env, t) || boolean(env, t),
        made_of(t, a, sign, b),
    ensures
        grammar::primary_at(env, toks, i) matches Ok((node, end)) ==> end == i + spelled(t).len()
            && means(env, t, node, v),
{
    let j = i + 1 + spelled(a).len();
    let k = j + 1 + spelled(b).len();
    let (na, nb) = choose|na: NodeV, nb: NodeV| #[trigger]
        two_operands(env, toks, i, na, j, sign, nb, k) && means(env, a, na, v) && means(
            env,
            b,
            nb,
            v,
        );
    assert(spelled(t) =~= bracketed(spelled(a), sign, spelled(b)));
    match t {
        Meant::Sum(_, _) => {
            lemma_sum_at(env, toks, i, na, j, sign, nb, k);
            meaning::lemma_sum_means(toks, k, na, nb, false, v.nums);
        },
        Meant::Difference(_, _) => {
            lemma_sum_at(env, toks, i, na, j, sign, nb, k);
            meaning::lemma_sum_means(toks, k, na, nb, true, v.nums);
        },
        Meant::Product(_, _) => {
            lemma_product_at(env, toks, i, na, j, nb, k);
            meaning::lemma_product_means(toks, k, na, nb, false, v.nums);
        },
        Meant::Compared(op, _, _) => {
            lemma_compared(env, toks, i, na, j, op, nb, k);
            meaning::lemma_comparison_means(env, toks, k, na, op, nb, v);
        },
        Meant::And(_, _) => {
            lemma_joined_by(env, toks, i, na, j, sign, nb, k, v);
        },
        Meant::Or(_, _) => {
            lemma_joined_by(env, toks, i, na, j, sign, nb, k, v);
        },
        _ => {
            lemma_arrow(env, toks, i, na, j, sign, nb, k, v);
        },
    }
}

proof fn lemma_operation_means(
    env: Sorts,
    toks: Toks,
    i: int,
    t: Meant,
    a: Meant,
    sign: TokV,
    b: Meant,
    v: Valuation,
)
    requires
        reads(toks, i, bracketed(spelled(a), sign, spelled(b))),
        made_of(t, a, sign, b),
        numeric(env, t) || boolean(env, t),
        part_means(env, toks, i + 1, a, v),
        part_means(env, toks, i + 2 + spelled(a).len(), b, v),
    ensures
        part_means(env, toks, i, t, v),
{
    lemma_parts_mean(env, toks, i, a, sign, b, v);
    reveal(part_means);
    if grammar::primary_at(env, toks, i) is Ok {
        lemma_operation(env, toks, i, t, a, sign, b, v);
    }
}

proof fn lemma_negation_means(env: Sorts, toks: Toks, i: int, a: Meant, v: Valuation)
    requires
        reads(toks, i, spelled(Meant::Not(Box::new(a)))),
        boolean(env, a),
        part_means(env, toks, i + 2, a, v),
    ensures
        part_means(env, toks, i, Meant::Not(Box::new(a)), v),
{
    reveal(part_means);
    lemma_negated_reads(toks, i, a);
    match grammar::primary_at(env, toks, i + 2) {
        Err(_) => {
            lemma_negated_fails(env, toks, i);
        },
        Ok((na, k)) => {
            lemma_first(a);
            lemma_negated_at(env, toks, i, na, k, v);
        },
    }
}

proof fn lemma_leaf_means(env: Sorts, toks: Toks, i: int, t: Meant, v: Valuation)
    requires
        reads(toks, i, spelled(t)),
        numeric(env, t) || boolean(env, t),
        t is Number || t is Name,
    ensures
        part_means(env, toks, i, t, v),
{
    reveal(part_means);
    assert(toks[i + 0].0 == spelled(t)[0]);
    match t {
        Meant::Number(k) => {
            meaning::lemma_primary_means(env, toks, i, v);
            assert(linear::lin_wf(linear::constant_form(k)));
        },
        Meant::Name(x) => {
            meaning::lemma_name_at(env, toks, i);
            meaning::lemma_name_means(env, toks, i + 1, x, v);
            theory::lemma_variable_form(x, v.nums);
            reveal(grammar::name_node);
        },
        _ => {},
    }
}

proof fn lemma_part_means(env: Sorts, toks: Toks, i: int, t: Meant, v: Valuation)
    requires
        reads(toks, i, spelled(t)),
        numeric(env, t) || boolean(env, t),
    ensures
        part_means(env, toks, i, t, v),
    decreases t,
{
    match t {
        Meant::Number(_) => {
            lemma_leaf_means(env, toks, i, t, v);
        },
        Meant::Name(_) => {
            lemma_leaf_means(env, toks, i, t, v);
        },
        Meant::Not(a) => {
            lemma_negated_reads(toks, i, *a);
            lemma_part_means(env, toks, i + 2, *a, v);
            lemma_negation_means(env, toks, i, *a, v);
        },
        Meant::Sum(a, b) => {
            let sign = TokV::Plus;
            lemma_reads_parts(toks, i, spelled(*a), sign, spelled(*b));
            lemma_part_means(env, toks, i + 1, *a, v);
            lemma_part_means(env, toks, i + 2 + spelled(*a).len(), *b, v);
            lemma_operation_means(env, toks, i, t, *a, sign, *b, v);
        },
        Meant::Difference(a, b) => {
            let sign = TokV::Minus;
            lemma_reads_parts(toks, i, spelled(*a), sign, spelled(*b));
            lemma_part_means(env, toks, i + 1, *a, v);
            lemma_part_means(env, toks, i + 2 + spelled(*a).len(), *b, v);
            lemma_operation_means(env, toks, i, t, *a, sign, *b, v);
        },
        Meant::Product(a, b) => {
            let sign = TokV::Star;
            lemma_reads_parts(toks, i, spelled(*a), sign, spelled(*b));
            lemma_part_means(env, toks, i + 1, *a, v);
            lemma_part_means(env, toks, i + 2 + spelled(*a).len(), *b, v);
            lemma_operation_means(env, toks, i, t, *a, sign, *b, v);
        },
        Meant::Compared(op, a, b) => {
            let sign = meaning::sign_of(op);
            lemma_reads_parts(toks, i, spelled(*a), sign, spelled(*b));
            lemma_part_means(env, toks, i + 1, *a, v);
            lemma_part_means(env, toks, i + 2 + spelled(*a).len(), *b, v);
            lemma_operation_means(env, toks, i, t, *a, sign, *b, v);
        },
        Meant::And(a, b) => {
            let sign = TokV::And;
            lemma_reads_parts(toks, i, spelled(*a), sign, spelled(*b));
            lemma_part_means(env, toks, i + 1, *a, v);
            lemma_part_means(env, toks, i + 2 + spelled(*a).len(), *b, v);
            lemma_operation_means(env, toks, i, t, *a, sign, *b, v);
        },
        Meant::Or(a, b) => {
            let sign = TokV::Or;
            lemma_reads_parts(toks, i, spelled(*a), sign, spelled(*b));
            lemma_part_means(env, toks, i + 1, *a, v);
            lemma_part_means(env, toks, i + 2 + spelled(*a).len(), *b, v);
            lemma_operation_means(env, toks, i, t, *a, sign, *b, v);
        },
        Meant::Implies(a, b) => {
            let sign = TokV::Arrow;
            lemma_reads_parts(toks, i, spelled(*a), sign, spelled(*b));
            lemma_part_means(env, toks, i + 1, *a, v);
            lemma_part_means(env, toks, i + 2 + spelled(*a).len(), *b, v);
            lemma_operation_means(env, toks, i, t, *a, sign, *b, v);
        },
        Meant::Iff(a, b) => {
            let sign = TokV::Iff;
            lemma_reads_parts(toks, i, spelled(*a), sign, spelled(*b));
            lemma_part_means(env, toks, i + 1, *a, v);
            lemma_part_means(env, toks, i + 2 + spelled(*a).len(), *b, v);
            lemma_operation_means(env, toks, i, t, *a, sign, *b, v);
        },
    }
}

/// A formula in which every operation stands in brackets, over declared variables, means,
/// where it is accepted, what its operations say: in every world it has the value, or the
/// truth, that they give, and nothing of it is left over.
pub proof fn lemma_formula_means(env: Sorts, toks: Toks, i: int, t: Meant, v: Valuation)
    requires
        reads(toks, i, spelled(t)),
        numeric(env, t) || boolean(env, t),
    ensures
        grammar::primary_at(env, toks, i) matches Ok((node, end)) ==> end == i + spelled(t).len()
            && means(env, t, node, v),
{
    lemma_part_means(env, toks, i, t, v);
    reveal(part_means);
}

/// Is the formula made of conditions by connectives alone?
pub open spec fn logical(env: Sorts, t: Meant) -> bool
    decreases t,
{
    match t {
        Meant::Name(x) => plain_name(x) && names::lookup(env, x) == Some(VarTypeV::Bool),
        Meant::Not(a) => logical(env, *a),
        Meant::And(a, b) => logical(env, *a) && logical(env, *b),
        Meant::Or(a, b) => logical(env, *a) && logical(env, *b),
        Meant::Implies(a, b) => logical(env, *a) && logical(env, *b),
        Meant::Iff(a, b) => logical(env, *a) && logical(env, *b),
        _ => false,
    }
}

proof fn lemma_logical(env: Sorts, t: Meant)
    requires
        logical(env, t),
    ensures
        boolean(env, t),
    decreases t,
{
    match t {
        Meant::Not(a) => {
            lemma_logical(env, *a);
        },
        Meant::And(a, b) => {
            lemma_logical(env, *a);
            lemma_logical(env, *b);
        },
        Meant::Or(a, b) => {
            lemma_logical(env, *a);
            lemma_logical(env, *b);
        },
        Meant::Implies(a, b) => {
            lemma_logical(env, *a);
            lemma_logical(env, *b);
        },
        Meant::Iff(a, b) => {
            lemma_logical(env, *a);
            lemma_logical(env, *b);
        },
        _ => {},
    }
}

/// Is the operand at the position accepted?
#[verifier::opaque]
spec fn accepted(env: Sorts, toks: Toks, i: int) -> bool {
    grammar::primary_at(env, toks, i) is Ok
}

proof fn lemma_connective_accepted(
    env: Sorts,
    toks: Toks,
    i: int,
    a: Meant,
    sign: TokV,
    b: Meant,
)
    requires
        reads(toks, i, bracketed(spelled(a), sign, spelled(b))),
        sign == TokV::And || sign == TokV::Or || sign == TokV::Arrow || sign == TokV::Iff,
        logical(env, a),
        logical(env, b),
        accepted(env, toks, i + 1),
        accepted(env, toks, i + 2 + spelled(a).len()),
    ensures
        accepted(env, toks, i),
{
    reveal(accepted);
    let v = Valuation { bools: |x: Seq<char>| false, nums: |x: Seq<char>| 0 as real, texts: |
        x: Seq<char>,
    | x };
    let j = i + 1 + spelled(a).len();
    let k = j + 1 + spelled(b).len();
    lemma_logical(env, a);
    lemma_logical(env, b);
    lemma_reads_parts(toks, i, spelled(a), sign, spelled(b));
    lemma_first(a);
    lemma_first(b);
    assert(toks[i + 1 + 0].0 == spelled(a)[0]);
    assert(toks[j + 1 + 0].0 == spelled(b)[0]);
    lemma_formula_means(env, toks, i + 1, a, v);
    lemma_formula_means(env, toks, j + 1, b, v);
    let (na, _) = grammar::primary_at(env, toks, i + 1)->Ok_0;
    let (nb, _) = grammar::primary_at(env, toks, j + 1)->Ok_0;
    assert(two_operands(env, toks, i, na, j, sign, nb, k));
    if sign == TokV::And || sign == TokV::Or {
        lemma_joined_by(env, toks, i, na, j, sign, nb, k, v);
    } else {
        lemma_arrow(env, toks, i, na, j, sign, nb, k, v);
    }
}

proof fn lemma_negation_accepted(env: Sorts, toks: Toks, i: int, a: Meant)
    requires
        reads(toks, i, spelled(Meant::Not(Box::new(a)))),
        logical(env, a),
        accepted(env, toks, i + 2),
    ensures
        accepted(env, toks, i),
{
    reveal(accepted);
    let v = Valuation { bools: |x: Seq<char>| false, nums: |x: Seq<char>| 0 as real, texts: |
        x: Seq<char>,
    | x };
    lemma_logical(env, a);
    lemma_negated_reads(toks, i, a);
    lemma_first(a);
    lemma_formula_means(env, toks, i + 2, a, v);
    let (na, k) = grammar::primary_at(env, toks, i + 2)->Ok_0;
    lemma_negated_at(env, toks, i, na, k, v);
}

proof fn lemma_name_accepted(env: Sorts, toks: Toks, i: int, x: Seq<char>)
    requires
        reads(toks, i, spelled(Meant::Name(x))),
        logical(env, Meant::Name(x)),
    ensures
        accepted(env, toks, i),
{
    reveal(accepted);
    let v = Valuation { bools: |x: Seq<char>| false, nums: |x: Seq<char>| 0 as real, texts: |
        x: Seq<char>,
    | x };
    assert(toks[i + 0].0 == spelled(Meant::Name(x))[0]);
    meaning::lemma_name_at(env, toks, i);
    meaning::lemma_name_means(env, toks, i + 1, x, v);
}

proof fn lemma_logic_accepted(env: Sorts, toks: Toks, i: int, t: Meant)
    requires
        reads(toks, i, spelled(t)),
        logical(env, t),
    ensures
        accepted(env, toks, i),
    decreases t,
{
    match t {
        Meant::Name(x) => {
            lemma_name_accepted(env, toks, i, x);
        },
        Meant::Not(a) => {
            lemma_negated_reads(toks, i, *a);
            lemma_logic_accepted(env, toks, i + 2, *a);
            lemma_negation_accepted(env, toks, i, *a);
        },
        Meant::And(a, b) => {
            lemma_reads_parts(toks, i, spelled(*a), TokV::And, spelled(*b));
            lemma_logic_accepted(env, toks, i + 1, *a);
            lemma_logic_accepted(env, toks, i + 2 + spelled(*a).len(), *b);
            lemma_connective_accepted(env, toks, i, *a, TokV::And, *b);
        },
        Meant::Or(a, b) => {
            lemma_reads_parts(toks, i, spelled(*a), TokV::Or, spelled(*b));
            lemma_logic_accepted(env, toks, i + 1, *a);
            lemma_logic_accepted(env, toks, i + 2 + spelled(*a).len(), *b);
            lemma_connective_accepted(env, toks, i, *a, TokV::Or, *b);
        },
        Meant::Implies(a, b) => {
            lemma_reads_parts(toks, i, spelled(*a), TokV::Arrow, spelled(*b));
            lemma_logic_accepted(env, toks, i + 1, *a);
            lemma_logic_accepted(env, toks, i + 2 + spelled(*a).len(), *b);
            lemma_connective_accepted(env, toks, i, *a, TokV::Arrow, *b);
        },
        Meant::Iff(a, b) => {
            lemma_reads_parts(toks, i, spelled(*a), TokV::Iff, spelled(*b));
            lemma_logic_accepted(env, toks, i + 1, *a);
            lemma_logic_accepted(env, toks, i + 2 + spelled(*a).len(), *b);
            lemma_connective_accepted(env, toks, i, *a, TokV::Iff, *b);
        },
        _ => {},
    }
}

/// What an operand that ends the text is at the loosest level: the same.
proof fn lemma_alone(env: Sorts, toks: Toks, i: int)
    requires
        starts(toks, i),
        grammar::primary_at(env, toks, i) matches Ok((_, k)) ==> i < k && k == toks.len(),
    ensures
        grammar::implies_at(env, toks, i) == grammar::primary_at(env, toks, i),
{
    let r = grammar::primary_at(env, toks, i);
    assert(grammar::unary_at(env, toks, i) == r);
    assert(grammar::product_at(env, toks, i) == r);
    assert(grammar::sum_at(env, toks, i) == r);
    assert(grammar::comparison_at(env, toks, i) == r);
    assert(grammar::not_at(env, toks, i) == r);
    if let Ok((n, k)) = r {
        assert(grammar::and_tail(env, toks, k) == Ok::<(Seq<NodeV>, int), ErrV>((Seq::empty(), k)));
        assert(grammar::or_tail(env, toks, k) == Ok::<(Seq<NodeV>, int), ErrV>((Seq::empty(), k)));
    }
    assert(grammar::and_at(env, toks, i) == r);
    assert(grammar::or_at(env, toks, i) == r);
}

/// A text whose tokens are those of such a formula denotes, where it is accepted, a formula
/// that is true in the worlds in which it is meant to be; and it is accepted where it is
/// made of conditions by connectives alone.
pub proof fn lemma_text_means(src: Seq<char>, env: Sorts, toks: Toks, t: Meant, v: Valuation)
    requires
        lexer::tokens_from(src, 0) == Ok::<Toks, ErrV>(toks),
        reads(toks, 0, spelled(t)),
        toks.len() == spelled(t).len(),
        boolean(env, t),
    ensures
        grammar::parsed(src, env) matches Ok(e) ==> semantics::holds(e, v) == truth_of(t, v),
        logical(env, t) ==> grammar::parsed(src, env) is Ok,
{
    lemma_first(t);
    let z: int = 0;
    assert(toks[z + 0].0 == spelled(t)[0]);
    lemma_formula_means(env, toks, 0, t, v);
    lemma_alone(env, toks, 0);
    meaning::lemma_whole_text(src, env);
    if logical(env, t) {
        lemma_logic_accepted(env, toks, 0, t);
        reveal(accepted);
    }
}

} // verus!
