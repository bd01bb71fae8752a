//! The grammar of the policy language: which formula a list of tokens denotes.

use vstd::prelude::*;

use crate::lexer;
use crate::lexer::{ErrV, TokV};
use crate::linear;
use crate::linear::LinV;
use crate::logic;
use crate::logic::{AtomV, ExprV, VarTypeV};
use crate::names;
use crate::num::Rat;
use crate::semantics;
use crate::semantics::{Sorts, Valuation};
use crate::soundness;
use crate::text;

verus! {

/// Tokens with their positions.
pub type Toks = Seq<(TokV, nat)>;

/// A partially parsed operand. What sort it has decides how a comparison is resolved
/// against the declared variable types.
#[verifier::ext_equal]
pub enum NodeV {
    Formula(ExprV),
    Term(LinV),
    Str(Seq<char>),
    EnumRef(Seq<char>),
}

/// A comparison.
#[derive(Clone, Copy, Debug, PartialEq, Eq, Structural)]
pub enum Relation {
    Le,
    Lt,
    Ge,
    Gt,
    Eq,
    Ne,
}

/// What is parsed from a position on, and where it ends.
pub type Parsed = Result<(NodeV, int), ErrV>;

/// An error at the token at `i`.
pub open spec fn err_at(toks: Toks, i: int, message: Seq<char>) -> ErrV {
    ErrV {
        message,
        position: if 0 <= i < toks.len() {
            toks[i].1
        } else {
            0
        },
    }
}

/// Is that the token at `i`?
pub open spec fn is_tok(toks: Toks, i: int, t: TokV) -> bool {
    0 <= i < toks.len() && toks[i].0 == t
}

/// The operand as a condition.
pub open spec fn as_formula(toks: Toks, i: int, node: NodeV) -> Result<ExprV, ErrV> {
    match node {
        NodeV::Formula(e) => Ok(e),
        NodeV::Term(l) => Err(
            err_at(
                toks,
                i,
                "'"@ + logic::rendered_form(l)
                    + "' is a number, not a condition — compare it with something"@,
            ),
        ),
        NodeV::Str(s) => Err(
            err_at(toks, i, "the text \""@ + s + "\" is not a condition on its own"@),
        ),
        NodeV::EnumRef(v) => Err(
            err_at(
                toks,
                i,
                "'"@ + v + "' is an enum — write something like "@ + v + " == \"...\""@,
            ),
        ),
    }
}

/// The operand as a number.
pub open spec fn as_term(toks: Toks, i: int, node: NodeV) -> Result<LinV, ErrV> {
    match node {
        NodeV::Term(l) => Ok(l),
        NodeV::Formula(_) => Err(
            err_at(toks, i, "a condition cannot be used inside arithmetic"@),
        ),
        NodeV::Str(s) => Err(
            err_at(toks, i, "the text \""@ + s + "\" cannot be used in arithmetic"@),
        ),
        NodeV::EnumRef(v) => Err(
            err_at(toks, i, "'"@ + v + "' is an enum and cannot be used in arithmetic"@),
        ),
    }
}

/// The operands as conditions; the first that is none is the error.
pub open spec fn as_formulas(toks: Toks, i: int, nodes: Seq<NodeV>) -> Result<Seq<ExprV>, ErrV>
    decreases nodes.len(),
{
    if nodes.len() == 0 {
        Ok(Seq::empty())
    } else {
        match as_formulas(toks, i, nodes.drop_last()) {
            Err(e) => Err(e),
            Ok(front) => match as_formula(toks, i, nodes.last()) {
                Err(e) => Err(e),
                Ok(f) => Ok(front.push(f)),
            },
        }
    }
}

/// The comparison that stands at `i`.
pub open spec fn relation_at(toks: Toks, i: int) -> Option<Relation> {
    if 0 <= i < toks.len() {
        match toks[i].0 {
            TokV::Le => Some(Relation::Le),
            TokV::Lt => Some(Relation::Lt),
            TokV::Ge => Some(Relation::Ge),
            TokV::Gt => Some(Relation::Gt),
            TokV::Eq => Some(Relation::Eq),
            TokV::Ne => Some(Relation::Ne),
            _ => None,
        }
    } else {
        None
    }
}

/// The normal form of a comparison of two numbers whose difference is `diff`; `neg` is
/// the opposite of that.
pub open spec fn normal_form(op: Relation, diff: LinV, neg: LinV) -> ExprV {
    match op {
        Relation::Le => ExprV::Le(diff),
        Relation::Lt => ExprV::Lt(diff),
        Relation::Ge => ExprV::Le(neg),
        Relation::Gt => ExprV::Lt(neg),
        // a == b  ⇔  a - b <= 0  ∧  b - a <= 0
        Relation::Eq => logic::conjunction(seq![ExprV::Le(diff), ExprV::Le(neg)]),
        // a != b  ⇔  a - b < 0  ∨  b - a < 0
        Relation::Ne => logic::disjunction(seq![ExprV::Lt(diff), ExprV::Lt(neg)]),
    }
}

/// A comparison of an enum variable with a value.
pub open spec fn enum_comparison(
    env: Sorts,
    toks: Toks,
    i: int,
    var: Seq<char>,
    value: Seq<char>,
    op: Relation,
) -> Result<ExprV, ErrV> {
    let atom = ExprV::EnumEq(var, value);
    match names::lookup(env, var) {
        Some(VarTypeV::Enum { values }) if !values.contains(value) => Err(
            err_at(
                toks,
                i,
                "\""@ + value + "\" is not a declared value of '"@ + var + "' (declared: "@
                    + text::joined(values, ", "@) + ")"@,
            ),
        ),
        _ => match op {
            Relation::Eq => Ok(atom),
            Relation::Ne => Ok(logic::negation(atom)),
            _ => Err(
                err_at(
                    toks,
                    i,
                    "'"@ + var + "' is an enum, so it can only be compared with == or !="@,
                ),
            ),
        },
    }
}

/// The comparison of two operands.
#[verifier::opaque]
pub open spec fn comparison(
    env: Sorts,
    toks: Toks,
    i: int,
    left: NodeV,
    op: Relation,
    right: NodeV,
) -> Result<ExprV, ErrV> {
    match (left, right) {
        (NodeV::EnumRef(var), NodeV::Str(value)) => enum_comparison(env, toks, i, var, value, op),
        (NodeV::Str(value), NodeV::EnumRef(var)) => enum_comparison(env, toks, i, var, value, op),
        (NodeV::Term(a), NodeV::Term(b)) => match linear::difference(a, b) {
            None => Err(err_at(toks, i, "arithmetic overflowed while normalizing"@)),
            Some(diff) => match linear::opposite(diff) {
                None => Err(err_at(toks, i, "arithmetic overflowed while normalizing"@)),
                Some(neg) => Ok(normal_form(op, diff, neg)),
            },
        },
        (NodeV::Formula(a), NodeV::Formula(b)) => match op {
            Relation::Eq => Ok(logic::equivalence(a, b)),
            Relation::Ne => Ok(logic::negation(logic::equivalence(a, b))),
            _ => Err(err_at(toks, i, "booleans can only be compared with == or !="@)),
        },
        (NodeV::EnumRef(var), _) => Err(enum_misused(toks, i, var)),
        (_, NodeV::EnumRef(var)) => Err(enum_misused(toks, i, var)),
        (NodeV::Str(s), _) => Err(text_misused(toks, i, s)),
        (_, NodeV::Str(s)) => Err(text_misused(toks, i, s)),
        _ => Err(err_at(toks, i, "these two operands have different types"@)),
    }
}

/// An enum compared with something that is not a value.
pub open spec fn enum_misused(toks: Toks, i: int, var: Seq<char>) -> ErrV {
    err_at(
        toks,
        i,
        "'"@ + var
            + "' is an enum and must be compared with one of its declared values, written in quotes"@,
    )
}

/// A text compared with something that is not an enum.
pub open spec fn text_misused(toks: Toks, i: int, s: Seq<char>) -> ErrV {
    err_at(toks, i, "the text \""@ + s + "\" can only be compared with an enum variable"@)
}

/// The sum or difference of two operands.
#[verifier::opaque]
pub open spec fn sum_of(
    toks: Toks,
    i: int,
    left: NodeV,
    right: NodeV,
    negate: bool,
) -> Result<NodeV, ErrV> {
    match as_term(toks, i, left) {
        Err(e) => Err(e),
        Ok(a) => match as_term(toks, i, right) {
            Err(e) => Err(e),
            Ok(b) => match if negate {
                linear::difference(a, b)
            } else {
                linear::sum(a, b)
            } {
                None => Err(err_at(toks, i, "arithmetic overflowed"@)),
                Some(l) => Ok(NodeV::Term(l)),
            },
        },
    }
}

/// The product or quotient of two operands. At least one side must be a constant, or
/// the result leaves the fragment the solver can decide.
#[verifier::opaque]
pub open spec fn product_of(
    toks: Toks,
    i: int,
    left: NodeV,
    right: NodeV,
    divide: bool,
) -> Result<NodeV, ErrV> {
    match as_term(toks, i, left) {
        Err(e) => Err(e),
        Ok(a) => match as_term(toks, i, right) {
            Err(e) => Err(e),
            Ok(b) => if divide {
                if b.terms.len() != 0 {
                    Err(
                        err_at(
                            toks,
                            i,
                            "division by a variable is not supported — rules must stay linear"@,
                        ),
                    )
                } else {
                    match Rat::of(1, 1).over(b.constant) {
                        None => Err(err_at(toks, i, "division by zero"@)),
                        Some(k) => scaled_or(toks, i, a, k),
                    }
                }
            } else if a.terms.len() == 0 {
                scaled_or(toks, i, b, a.constant)
            } else if b.terms.len() == 0 {
                scaled_or(toks, i, a, b.constant)
            } else {
                Err(
                    err_at(
                        toks,
                        i,
                        "two variables cannot be multiplied — rules must stay linear (multiply by a number instead)"@,
                    ),
                )
            },
        },
    }
}

/// A multiple of a form.
pub open spec fn scaled_or(toks: Toks, i: int, l: LinV, k: Rat) -> Result<NodeV, ErrV> {
    match linear::scaled(l, k) {
        None => Err(err_at(toks, i, "arithmetic overflowed"@)),
        Some(m) => Ok(NodeV::Term(m)),
    }
}

/// A name as an operand.
#[verifier::opaque]
pub open spec fn name_node(env: Sorts, toks: Toks, i: int, name: Seq<char>) -> Result<
    NodeV,
    ErrV,
> {
    if text::lower(name) == "true"@ {
        Ok(NodeV::Formula(ExprV::Const(true)))
    } else if text::lower(name) == "false"@ {
        Ok(NodeV::Formula(ExprV::Const(false)))
    } else {
        match names::lookup(env, name) {
            Some(VarTypeV::Bool) => Ok(NodeV::Formula(ExprV::Bool(name))),
            Some(VarTypeV::Int) => Ok(NodeV::Term(linear::variable_form(name))),
            Some(VarTypeV::Real) => Ok(NodeV::Term(linear::variable_form(name))),
            Some(VarTypeV::Enum { .. }) => Ok(NodeV::EnumRef(name)),
            None => Err(
                err_at(toks, i, "'"@ + name + "' is not a declared variable of this policy"@),
            ),
        }
    }
}

/// How a token is named in an error.
pub open spec fn token_name(t: TokV) -> Seq<char> {
    match t {
        TokV::RParen => "RParen"@,
        TokV::Plus => "Plus"@,
        TokV::Minus => "Minus"@,
        TokV::Star => "Star"@,
        TokV::Slash => "Slash"@,
        TokV::Le => "Le"@,
        TokV::Lt => "Lt"@,
        TokV::Ge => "Ge"@,
        TokV::Gt => "Gt"@,
        TokV::Eq => "Eq"@,
        TokV::Ne => "Ne"@,
        TokV::Arrow => "Arrow"@,
        TokV::And => "And"@,
        TokV::Or => "Or"@,
        TokV::Not => "Not"@,
        TokV::Iff => "Iff"@,
        _ => "LParen"@,
    }
}

/// How many tokens are left.
pub open spec fn remaining(toks: Toks, i: int) -> nat {
    if 0 <= i <= toks.len() {
        (toks.len() - i) as nat
    } else {
        0
    }
}

/// implies := or ( ("->" | "<->") implies )?   — right associative, lowest precedence
pub open spec fn implies_at(env: Sorts, toks: Toks, i: int) -> Parsed
    decreases remaining(toks, i), 9nat,
{
    match or_at(env, toks, i) {
        Err(e) => Err(e),
        Ok((left, j)) => if 0 <= i < j && (is_tok(toks, j, TokV::Arrow) || is_tok(toks, j, TokV::Iff)) {
            match implies_at(env, toks, j + 1) {
                Err(e) => Err(e),
                Ok((right, k)) => match as_formula(toks, k, left) {
                    Err(e) => Err(e),
                    Ok(a) => match as_formula(toks, k, right) {
                        Err(e) => Err(e),
                        Ok(b) => Ok(
                            (
                                NodeV::Formula(
                                    if is_tok(toks, j, TokV::Arrow) {
                                        logic::implication(a, b)
                                    } else {
                                        logic::equivalence(a, b)
                                    },
                                ),
                                k,
                            ),
                        ),
                    },
                },
            }
        } else {
            Ok((left, j))
        },
    }
}

/// or := and ( "or" and )*
pub open spec fn or_at(env: Sorts, toks: Toks, i: int) -> Parsed
    decreases remaining(toks, i), 8nat,
{
    match and_at(env, toks, i) {
        Err(e) => Err(e),
        Ok((first, j)) => if 0 <= i < j <= toks.len() {
            match or_tail(env, toks, j) {
                Err(e) => Err(e),
                Ok((more, k)) => if more.len() == 0 {
                    Ok((first, k))
                } else {
                    match as_formulas(toks, k, seq![first] + more) {
                        Err(e) => Err(e),
                        Ok(fs) => Ok((NodeV::Formula(logic::disjunction(fs)), k)),
                    }
                },
            }
        } else {
            Ok((first, j))
        },
    }
}

/// ( "or" and )*
pub open spec fn or_tail(env: Sorts, toks: Toks, i: int) -> Result<(Seq<NodeV>, int), ErrV>
    decreases remaining(toks, i), 8nat,
{
    if is_tok(toks, i, TokV::Or) {
        match and_at(env, toks, i + 1) {
            Err(e) => Err(e),
            Ok((node, j)) => if i + 1 < j <= toks.len() {
                with_node(node, or_tail(env, toks, j))
            } else {
                Ok((seq![node], j))
            },
        }
    } else {
        Ok((Seq::empty(), i))
    }
}

/// An operand in front of others.
pub open spec fn with_node(
    node: NodeV,
    rest: Result<(Seq<NodeV>, int), ErrV>,
) -> Result<(Seq<NodeV>, int), ErrV> {
    match rest {
        Err(e) => Err(e),
        Ok((more, k)) => Ok((seq![node] + more, k)),
    }
}

/// and := not ( "and" not )*
pub open spec fn and_at(env: Sorts, toks: Toks, i: int) -> Parsed
    decreases remaining(toks, i), 7nat,
{
    match not_at(env, toks, i) {
        Err(e) => Err(e),
        Ok((first, j)) => if 0 <= i < j <= toks.len() {
            match and_tail(env, toks, j) {
                Err(e) => Err(e),
                Ok((more, k)) => if more.len() == 0 {
                    Ok((first, k))
                } else {
                    match as_formulas(toks, k, seq![first] + more) {
                        Err(e) => Err(e),
                        Ok(fs) => Ok((NodeV::Formula(logic::conjunction(fs)), k)),
                    }
                },
            }
        } else {
            Ok((first, j))
        },
    }
}

/// ( "and" not )*
pub open spec fn and_tail(env: Sorts, toks: Toks, i: int) -> Result<(Seq<NodeV>, int), ErrV>
    decreases remaining(toks, i), 7nat,
{
    if is_tok(toks, i, TokV::And) {
        match not_at(env, toks, i + 1) {
            Err(e) => Err(e),
            Ok((node, j)) => if i + 1 < j <= toks.len() {
                with_node(node, and_tail(env, toks, j))
            } else {
                Ok((seq![node], j))
            },
        }
    } else {
        Ok((Seq::empty(), i))
    }
}

/// not := "not" not | comparison
pub open spec fn not_at(env: Sorts, toks: Toks, i: int) -> Parsed
    decreases remaining(toks, i), 6nat,
{
    if is_tok(toks, i, TokV::Not) {
        match not_at(env, toks, i + 1) {
            Err(e) => Err(e),
            Ok((inner, j)) => match as_formula(toks, j, inner) {
                Err(e) => Err(e),
                Ok(f) => Ok((NodeV::Formula(logic::negation(f)), j)),
            },
        }
    } else {
        comparison_at(env, toks, i)
    }
}

/// comparison := sum ( relation sum )?
pub open spec fn comparison_at(env: Sorts, toks: Toks, i: int) -> Parsed
    decreases remaining(toks, i), 5nat,
{
    match sum_at(env, toks, i) {
        Err(e) => Err(e),
        Ok((left, j)) => match relation_at(toks, j) {
            None => Ok((left, j)),
            Some(op) => if 0 <= i < j {
                match sum_at(env, toks, j + 1) {
                    Err(e) => Err(e),
                    Ok((right, k)) => match comparison(env, toks, k, left, op, right) {
                        Err(e) => Err(e),
                        Ok(f) => Ok((NodeV::Formula(f), k)),
                    },
                }
            } else {
                Ok((left, j))
            },
        },
    }
}

/// sum := product ( ("+" | "-") product )*
pub open spec fn sum_at(env: Sorts, toks: Toks, i: int) -> Parsed
    decreases remaining(toks, i), 4nat,
{
    match product_at(env, toks, i) {
        Err(e) => Err(e),
        Ok((left, j)) => if 0 <= i < j <= toks.len() {
            sum_tail(env, toks, left, j)
        } else {
            Ok((left, j))
        },
    }
}

/// ( ("+" | "-") product )*, added to what is on the left
pub open spec fn sum_tail(env: Sorts, toks: Toks, left: NodeV, i: int) -> Parsed
    decreases remaining(toks, i), 4nat,
{
    if is_tok(toks, i, TokV::Plus) || is_tok(toks, i, TokV::Minus) {
        match product_at(env, toks, i + 1) {
            Err(e) => Err(e),
            Ok((right, j)) => match sum_of(
                toks,
                j,
                left,
                right,
                is_tok(toks, i, TokV::Minus),
            ) {
                Err(e) => Err(e),
                Ok(node) => if i + 1 < j <= toks.len() {
                    sum_tail(env, toks, node, j)
                } else {
                    Ok((node, j))
                },
            },
        }
    } else {
        Ok((left, i))
    }
}

/// product := unary ( ("*" | "/") unary )*
pub open spec fn product_at(env: Sorts, toks: Toks, i: int) -> Parsed
    decreases remaining(toks, i), 3nat,
{
    match unary_at(env, toks, i) {
        Err(e) => Err(e),
        Ok((left, j)) => if 0 <= i < j <= toks.len() {
            product_tail(env, toks, left, j)
        } else {
            Ok((left, j))
        },
    }
}

/// ( ("*" | "/") unary )*, multiplied with what is on the left
pub open spec fn product_tail(env: Sorts, toks: Toks, left: NodeV, i: int) -> Parsed
    decreases remaining(toks, i), 3nat,
{
    if is_tok(toks, i, TokV::Star) || is_tok(toks, i, TokV::Slash) {
        match unary_at(env, toks, i + 1) {
            Err(e) => Err(e),
            Ok((right, j)) => match product_of(
                toks,
                j,
                left,
                right,
                is_tok(toks, i, TokV::Slash),
            ) {
                Err(e) => Err(e),
                Ok(node) => if i + 1 < j <= toks.len() {
                    product_tail(env, toks, node, j)
                } else {
                    Ok((node, j))
                },
            },
        }
    } else {
        Ok((left, i))
    }
}

/// unary := "-" unary | "+" unary | primary
pub open spec fn unary_at(env: Sorts, toks: Toks, i: int) -> Parsed
    decreases remaining(toks, i), 2nat,
{
    if is_tok(toks, i, TokV::Minus) {
        match unary_at(env, toks, i + 1) {
            Err(e) => Err(e),
            Ok((inner, j)) => match as_term(toks, j, inner) {
                Err(e) => Err(e),
                Ok(l) => match linear::opposite(l) {
                    None => Err(err_at(toks, j, "arithmetic overflowed"@)),
                    Some(o) => Ok((NodeV::Term(o), j)),
                },
            },
        }
    } else if is_tok(toks, i, TokV::Plus) {
        unary_at(env, toks, i + 1)
    } else {
        primary_at(env, toks, i)
    }
}

/// primary := "(" implies ")" | number | string | name
pub open spec fn primary_at(env: Sorts, toks: Toks, i: int) -> Parsed
    decreases remaining(toks, i), 1nat,
{
    if !(0 <= i < toks.len()) {
        Err(err_at(toks, i, "expression ended early"@))
    } else {
        match toks[i].0 {
            TokV::LParen => match implies_at(env, toks, i + 1) {
                Err(e) => Err(e),
                Ok((inner, j)) => if is_tok(toks, j, TokV::RParen) {
                    Ok((inner, j + 1))
                } else {
                    Err(err_at(toks, j, "missing ')'"@))
                },
            },
            TokV::Number(v) => Ok((NodeV::Term(linear::constant_form(v)), i + 1)),
            TokV::Str(s) => Ok((NodeV::Str(s), i + 1)),
            TokV::Ident(name) => match name_node(env, toks, i + 1, name) {
                Err(e) => Err(e),
                Ok(node) => Ok((node, i + 1)),
            },
            other => Err(err_at(toks, i, "unexpected token "@ + token_name(other))),
        }
    }
}

/// The formula that a text denotes.
#[verifier::opaque]
pub open spec fn parsed(src: Seq<char>, env: Sorts) -> Result<ExprV, ErrV> {
    match lexer::tokens_from(src, 0) {
        Err(e) => Err(e),
        Ok(toks) => if toks.len() == 0 {
            Err(ErrV { message: "the expression is empty"@, position: 0 })
        } else {
            match implies_at(env, toks, 0) {
                Err(e) => Err(e),
                Ok((node, i)) => if i < toks.len() {
                    Err(err_at(toks, i, "unexpected trailing input"@))
                } else {
                    as_formula(toks, i, node)
                },
            }
        },
    }
}

// ── What parsing guarantees ─────────────────────────────────────────────────────

/// Is the atom over declared variables of the right sorts, tests a declared value, and
/// is in normal form?
pub open spec fn lawful_atom(env: Sorts, a: AtomV) -> bool {
    &&& soundness::atom_sorted(env, a)
    &&& logic::atom_wf(a)
    &&& match a {
        AtomV::EnumEq(name, value) => (names::lookup(env, name)->0->values).contains(value),
        _ => true,
    }
}

/// Are all atoms of the formula lawful?
pub open spec fn lawful(env: Sorts, e: ExprV) -> bool {
    forall|a: AtomV| #[trigger] logic::atoms_of(e).contains(a) ==> lawful_atom(env, a)
}

/// Are all atoms of the formulas lawful?
pub open spec fn lawful_all(env: Sorts, items: Seq<ExprV>) -> bool {
    forall|i: int| 0 <= i < items.len() ==> lawful(env, #[trigger] items[i])
}

/// Does the operand denote something over declared variables?
pub open spec fn lawful_node(env: Sorts, node: NodeV) -> bool {
    match node {
        NodeV::Formula(e) => lawful(env, e),
        NodeV::Term(l) => linear::lin_wf(l) && soundness::form_sorted(env, l),
        NodeV::EnumRef(v) => names::lookup(env, v) matches Some(VarTypeV::Enum { .. }),
        NodeV::Str(_) => true,
    }
}

proof fn lemma_lawful_items(env: Sorts, items: Seq<ExprV>)
    ensures
        lawful_all(env, items) ==> lawful(env, ExprV::And(items)) && lawful(env, ExprV::Or(items)),
        lawful(env, ExprV::And(items)) ==> lawful_all(env, items),
        lawful(env, ExprV::Or(items)) ==> lawful_all(env, items),
{
    let all = logic::atoms_of_all(items);
    assert(logic::atoms_of(ExprV::And(items)) == all);
    assert(logic::atoms_of(ExprV::Or(items)) == all);
    if lawful_all(env, items) {
        assert forall|a: AtomV| #[trigger] all.contains(a) implies lawful_atom(env, a) by {
            let i = semantics::lemma_atom_from(items, a);
            assert(lawful(env, items[i]));
        }
    }
    if lawful(env, ExprV::And(items)) || lawful(env, ExprV::Or(items)) {
        assert forall|i: int| 0 <= i < items.len() implies lawful(env, #[trigger] items[i]) by {
            assert forall|a: AtomV| #[trigger]
                logic::atoms_of(items[i]).contains(a) implies lawful_atom(env, a) by {
                semantics::lemma_atoms_of_item(items, i, a);
            }
        }
    }
}

proof fn lemma_lawful_flattened(env: Sorts, items: Seq<ExprV>, absorbing: bool)
    requires
        lawful_all(env, items),
    ensures
        lawful_all(env, logic::flattened(items, absorbing)),
    decreases items.len(),
{
    if items.len() > 0 {
        let init = items.drop_last();
        let last = items.last();
        assert(lawful_all(env, init)) by {
            assert forall|i: int| 0 <= i < init.len() implies lawful(env, #[trigger] init[i]) by {
                assert(init[i] == items[i]);
            }
        }
        lemma_lawful_flattened(env, init, absorbing);
        assert(lawful(env, items[items.len() - 1]));
        match last {
            ExprV::And(inner) => {
                lemma_lawful_items(env, inner);
            },
            ExprV::Or(inner) => {
                lemma_lawful_items(env, inner);
            },
            _ => {},
        }
    }
}

/// Junctions of lawful formulas are lawful.
pub proof fn lemma_lawful_junction(env: Sorts, items: Seq<ExprV>)
    requires
        lawful_all(env, items),
    ensures
        lawful(env, logic::conjunction(items)),
        lawful(env, logic::disjunction(items)),
{
    lemma_lawful_flattened(env, items, true);
    lemma_lawful_flattened(env, items, false);
    lemma_lawful_items(env, logic::flattened(items, true));
    lemma_lawful_items(env, logic::flattened(items, false));
    lemma_lawful_const(env, true);
    lemma_lawful_const(env, false);
}

proof fn lemma_lawful_const(env: Sorts, b: bool)
    ensures
        lawful(env, ExprV::Const(b)),
{
    assert forall|a: AtomV| #[trigger]
        logic::atoms_of(ExprV::Const(b)).contains(a) implies lawful_atom(env, a) by {}
}

/// The negation of a lawful formula is lawful.
pub proof fn lemma_lawful_negation(env: Sorts, e: ExprV)
    requires
        lawful(env, e),
    ensures
        lawful(env, logic::negation(e)),
{
    lemma_lawful_const(env, true);
    lemma_lawful_const(env, false);
    match e {
        ExprV::Const(_) => {},
        ExprV::Not(inner) => {
            assert(logic::atoms_of(e) == logic::atoms_of(*inner));
        },
        _ => {
            assert(logic::atoms_of(logic::negation(e)) == logic::atoms_of(e));
        },
    }
}

/// Implications and equivalences of lawful formulas are lawful.
pub proof fn lemma_lawful_arrows(env: Sorts, a: ExprV, b: ExprV)
    requires
        lawful(env, a),
        lawful(env, b),
    ensures
        lawful(env, logic::implication(a, b)),
        lawful(env, logic::equivalence(a, b)),
{
    lemma_lawful_negation(env, a);
    lemma_lawful_negation(env, b);
    lemma_lawful_junction(env, seq![logic::negation(a), b]);
    lemma_lawful_junction(env, seq![logic::negation(b), a]);
    lemma_lawful_junction(env, seq![logic::implication(a, b), logic::implication(b, a)]);
}

/// Lawful formulas use each variable as its sort says, and the enums that they test have
/// values.
pub proof fn lemma_lawful_sorted(env: Sorts, items: Seq<ExprV>)
    requires
        lawful_all(env, items),
    ensures
        soundness::well_sorted(env, items),
        soundness::inhabited(env, items),
{
    assert forall|a: AtomV| #[trigger]
        logic::atoms_of_all(items).contains(a) implies soundness::atom_sorted(env, a)
        && soundness::atom_inhabited(env, a) by {
        let i = semantics::lemma_atom_from(items, a);
        assert(lawful(env, items[i]));
    }
}

/// A formula that is one lawful atom is lawful.
proof fn lemma_lawful_leaf(env: Sorts, e: ExprV)
    requires
        logic::leaf(e) matches Some(a) && lawful_atom(env, a),
    ensures
        lawful(env, e),
{
    let a = logic::leaf(e)->0;
    assert(logic::atoms_of(e) =~= seq![a]);
}

/// A name denotes something over declared variables.
pub proof fn lemma_lawful_name(env: Sorts, toks: Toks, i: int, name: Seq<char>)
    ensures
        name_node(env, toks, i, name) matches Ok(node) ==> lawful_node(env, node),
{
    reveal(name_node);
    lemma_lawful_const(env, true);
    lemma_lawful_const(env, false);
    let zero = |x: Seq<char>| 0 as real;
    crate::theory::lemma_variable_form(name, zero);
    if names::lookup(env, name) == Some(VarTypeV::Bool) {
        lemma_lawful_leaf(env, ExprV::Bool(name));
    }
}

/// Comparisons of lawful operands are lawful.
pub proof fn lemma_lawful_comparison(
    env: Sorts,
    toks: Toks,
    i: int,
    left: NodeV,
    op: Relation,
    right: NodeV,
)
    requires
        lawful_node(env, left),
        lawful_node(env, right),
    ensures
        comparison(env, toks, i, left, op, right) matches Ok(f) ==> lawful(env, f),
{
    reveal(comparison);
    if let Ok(f) = comparison(env, toks, i, left, op, right) {
        match (left, right) {
            (NodeV::EnumRef(var), NodeV::Str(value)) => {
                lemma_lawful_leaf(env, ExprV::EnumEq(var, value));
                lemma_lawful_negation(env, ExprV::EnumEq(var, value));
            },
            (NodeV::Str(value), NodeV::EnumRef(var)) => {
                lemma_lawful_leaf(env, ExprV::EnumEq(var, value));
                lemma_lawful_negation(env, ExprV::EnumEq(var, value));
            },
            (NodeV::Term(a), NodeV::Term(b)) => {
                let zero = |x: Seq<char>| 0 as real;
                let o = linear::opposite(b)->0;
                linear::lemma_opposite(b, zero);
                linear::lemma_sum(a, o, zero);
                let diff = linear::difference(a, b)->0;
                let neg = linear::opposite(diff)->0;
                linear::lemma_opposite(diff, zero);
                lemma_lawful_leaf(env, ExprV::Le(diff));
                lemma_lawful_leaf(env, ExprV::Lt(diff));
                lemma_lawful_leaf(env, ExprV::Le(neg));
                lemma_lawful_leaf(env, ExprV::Lt(neg));
                lemma_lawful_junction(env, seq![ExprV::Le(diff), ExprV::Le(neg)]);
                lemma_lawful_junction(env, seq![ExprV::Lt(diff), ExprV::Lt(neg)]);
            },
            (NodeV::Formula(a), NodeV::Formula(b)) => {
                lemma_lawful_arrows(env, a, b);
                lemma_lawful_negation(env, logic::equivalence(a, b));
            },
            _ => {},
        }
    }
}

/// Sums and products of lawful operands are lawful.
pub proof fn lemma_lawful_arithmetic(
    env: Sorts,
    toks: Toks,
    i: int,
    left: NodeV,
    right: NodeV,
    flag: bool,
)
    requires
        lawful_node(env, left),
        lawful_node(env, right),
    ensures
        sum_of(toks, i, left, right, flag) matches Ok(node) ==> lawful_node(env, node),
        product_of(toks, i, left, right, flag) matches Ok(node) ==> lawful_node(env, node),
{
    reveal(sum_of);
    reveal(product_of);
    let zero = |x: Seq<char>| 0 as real;
    if left is Term && right is Term {
        let (a, b) = (left->Term_0, right->Term_0);
        linear::lemma_sum(a, b, zero);
        linear::lemma_opposite(b, zero);
        if let Some(o) = linear::opposite(b) {
            linear::lemma_sum(a, o, zero);
        }
        linear::lemma_scaled(a, b.constant, zero);
        linear::lemma_scaled(b, a.constant, zero);
        Rat::lemma_whole(1);
        Rat::of(1, 1).lemma_over(b.constant);
        if let Some(k) = Rat::of(1, 1).over(b.constant) {
            linear::lemma_scaled(a, k, zero);
        }
    }
}

/// The opposite of a lawful form is lawful.
pub proof fn lemma_lawful_opposite(env: Sorts, l: LinV)
    requires
        lawful_node(env, NodeV::Term(l)),
    ensures
        linear::opposite(l) matches Some(o) ==> lawful_node(env, NodeV::Term(o)),
{
    linear::lemma_opposite(l, |x: Seq<char>| 0 as real);
}

/// How two numbers compare.
pub open spec fn compares(op: Relation, x: real, y: real) -> bool {
    match op {
        Relation::Le => x <= y,
        Relation::Lt => x < y,
        Relation::Ge => x >= y,
        Relation::Gt => x > y,
        Relation::Eq => x == y,
        Relation::Ne => x != y,
    }
}

/// The normal form of a comparison of two forms means that comparison of their values.
pub proof fn lemma_normal_form(op: Relation, a: LinV, b: LinV, v: Valuation)
    requires
        linear::lin_wf(a),
        linear::lin_wf(b),
        linear::difference(a, b) is Some,
        linear::opposite(linear::difference(a, b)->0) is Some,
    ensures
        semantics::holds(
            normal_form(
                op,
                linear::difference(a, b)->0,
                linear::opposite(linear::difference(a, b)->0)->0,
            ),
            v,
        ) == compares(op, linear::value(a, v.nums), linear::value(b, v.nums)),
{
    let o = linear::opposite(b)->0;
    linear::lemma_opposite(b, v.nums);
    linear::lemma_sum(a, o, v.nums);
    let diff = linear::difference(a, b)->0;
    let neg = linear::opposite(diff)->0;
    linear::lemma_opposite(diff, v.nums);
    let les = seq![ExprV::Le(diff), ExprV::Le(neg)];
    let lts = seq![ExprV::Lt(diff), ExprV::Lt(neg)];
    semantics::lemma_conjunction(les, v);
    semantics::lemma_disjunction(lts, v);
    if semantics::all_hold(les, v) {
        assert(semantics::holds(les[0], v) && semantics::holds(les[1], v));
    } else {
        let k = choose|k: int| 0 <= k < les.len() && !#[trigger] semantics::holds(les[k], v);
        assert(k == 0 || k == 1);
    }
    if semantics::one_holds(lts, v) {
        let k = choose|k: int| 0 <= k < lts.len() && #[trigger] semantics::holds(lts[k], v);
        assert(k == 0 || k == 1);
    } else {
        assert(!semantics::holds(lts[0], v) && !semantics::holds(lts[1], v));
    }
}

} // verus!
