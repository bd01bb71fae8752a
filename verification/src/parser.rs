//! The policy DSL: a small infix language that compiles to [`crate::logic::Expr`].
//!
//! Rules and claims are written the way a person would write them —
//!
//! ```text
//! is_manager and tenure_months >= 12 -> vacation_days <= 30
//! status == "terminated" -> not eligible_for_bonus
//! discount <= 0.15
//! ```
//!
//! # Typed, and strict about it
//!
//! Parsing happens against the declared variables ([`Env`]), so the parser knows that
//! `status` is an enum and `tenure_months` is an integer. That is what lets it reject
//! — at authoring time, with a message — the three mistakes an extraction model
//! actually makes:
//!
//! * naming a variable that does not exist (`tenur_months`), rather than silently
//!   inventing one and proving something about nothing;
//! * comparing an enum to a number, or a bool to a string;
//! * multiplying two variables (`salary * rate`), which would leave the linear
//!   fragment the solver can decide.

use vstd::prelude::*;

use crate::grammar;
use crate::grammar::{NodeV, Parsed, Relation, Toks};
use crate::lexer;
use crate::lexer::{tokens, ErrV, Tok, TokV};
use crate::linear;
use crate::logic;
use crate::logic::{Expr, ExprV, Linear, VarType};
use crate::num::Rat;
use crate::solver::Env;
use crate::text::{cat2, cat3, cat5, holds_text, join, lower_text, same};

pub use crate::lexer::ParseError;

verus! {

/// A partially parsed operand. The parser tracks what *sort* it has so a comparison
/// can be resolved against the declared variable types.
enum Node {
    Formula(Expr),
    Term(Linear),
    Str(String),
    EnumRef(String),
}

impl View for Node {
    type V = NodeV;

    closed spec fn view(&self) -> NodeV {
        match self {
            Node::Formula(e) => NodeV::Formula(e@),
            Node::Term(l) => NodeV::Term(l@),
            Node::Str(s) => NodeV::Str(s@),
            Node::EnumRef(v) => NodeV::EnumRef(v@),
        }
    }
}

/// Operands by their contents.
spec fn node_views(v: Seq<Node>) -> Seq<NodeV> {
    Seq::new(v.len(), |i: int| v[i]@)
}

struct Parser<'a> {
    toks: Vec<(Tok, usize)>,
    env: &'a Env,
}

/// What a parsing function returned, by its contents.
spec fn seen(r: Result<(Node, usize), ParseError>) -> Parsed {
    match r {
        Ok((n, j)) => Ok((n@, j as int)),
        Err(e) => Err(e@),
    }
}

/// Is the result lawful, and was something read?
spec fn sound(p: Parser, i: int, r: Result<(Node, usize), ParseError>) -> bool {
    r matches Ok((n, j)) ==> i < j <= p.toks@.len() && grammar::lawful_node(p.env@, n@)
}

impl<'a> Parser<'a> {
    spec fn view(&self) -> Toks {
        lexer::token_views(self.toks@)
    }

    fn err(&self, i: usize, message: &str) -> (r: ParseError)
        ensures
            r@ == grammar::err_at(self@, i as int, message@),
    {
        let position = if i < self.toks.len() {
            self.toks[i].1
        } else {
            0
        };
        ParseError { message: message.to_owned(), position }
    }

    fn is_arrow(&self, i: usize) -> (b: bool)
        ensures
            b == grammar::is_tok(self@, i as int, TokV::Arrow),
            b ==> i < usize::MAX,
    {
        i < self.toks.len() && match self.toks[i].0 {
            Tok::Arrow => true,
            _ => false,
        }
    }

    fn is_iff(&self, i: usize) -> (b: bool)
        ensures
            b == grammar::is_tok(self@, i as int, TokV::Iff),
            b ==> i < usize::MAX,
    {
        i < self.toks.len() && match self.toks[i].0 {
            Tok::Iff => true,
            _ => false,
        }
    }

    fn is_or(&self, i: usize) -> (b: bool)
        ensures
            b == grammar::is_tok(self@, i as int, TokV::Or),
            b ==> i < usize::MAX,
    {
        i < self.toks.len() && match self.toks[i].0 {
            Tok::Or => true,
            _ => false,
        }
    }

    fn is_and(&self, i: usize) -> (b: bool)
        ensures
            b == grammar::is_tok(self@, i as int, TokV::And),
            b ==> i < usize::MAX,
    {
        i < self.toks.len() && match self.toks[i].0 {
            Tok::And => true,
            _ => false,
        }
    }

    fn is_not(&self, i: usize) -> (b: bool)
        ensures
            b == grammar::is_tok(self@, i as int, TokV::Not),
            b ==> i < usize::MAX,
    {
        i < self.toks.len() && match self.toks[i].0 {
            Tok::Not => true,
            _ => false,
        }
    }

    fn is_plus(&self, i: usize) -> (b: bool)
        ensures
            b == grammar::is_tok(self@, i as int, TokV::Plus),
            b ==> i < usize::MAX,
    {
        i < self.toks.len() && match self.toks[i].0 {
            Tok::Plus => true,
            _ => false,
        }
    }

    fn is_minus(&self, i: usize) -> (b: bool)
        ensures
            b == grammar::is_tok(self@, i as int, TokV::Minus),
            b ==> i < usize::MAX,
    {
        i < self.toks.len() && match self.toks[i].0 {
            Tok::Minus => true,
            _ => false,
        }
    }

    fn is_star(&self, i: usize) -> (b: bool)
        ensures
            b == grammar::is_tok(self@, i as int, TokV::Star),
            b ==> i < usize::MAX,
    {
        i < self.toks.len() && match self.toks[i].0 {
            Tok::Star => true,
            _ => false,
        }
    }

    fn is_slash(&self, i: usize) -> (b: bool)
        ensures
            b == grammar::is_tok(self@, i as int, TokV::Slash),
            b ==> i < usize::MAX,
    {
        i < self.toks.len() && match self.toks[i].0 {
            Tok::Slash => true,
            _ => false,
        }
    }

    fn closes(&self, i: usize) -> (b: bool)
        ensures
            b == grammar::is_tok(self@, i as int, TokV::RParen),
            b ==> i < usize::MAX,
    {
        i < self.toks.len() && match self.toks[i].0 {
            Tok::RParen => true,
            _ => false,
        }
    }

    /// The operand as a condition.
    fn as_formula(&self, i: usize, node: Node) -> (r: Result<Expr, ParseError>)
        ensures
            match r {
                Ok(e) => grammar::as_formula(self@, i as int, node@) == Ok::<ExprV, ErrV>(e@)
                    && node@ == NodeV::Formula(e@),
                Err(e) => grammar::as_formula(self@, i as int, node@) == Err::<ExprV, ErrV>(e@),
            },
    {
        match node {
            Node::Formula(e) => Ok(e),
            Node::Term(l) => {
                let shown = l.render();
                let message = cat3(
                    "'",
                    shown.as_str(),
                    "' is a number, not a condition — compare it with something",
                );
                Err(self.err(i, message.as_str()))
            },
            Node::Str(s) => {
                let message = cat3(
                    "the text \"",
                    s.as_str(),
                    "\" is not a condition on its own",
                );
                Err(self.err(i, message.as_str()))
            },
            Node::EnumRef(v) => {
                let message = cat5(
                    "'",
                    v.as_str(),
                    "' is an enum — write something like ",
                    v.as_str(),
                    " == \"...\"",
                );
                Err(self.err(i, message.as_str()))
            },
        }
    }

    /// The operand as a number.
    fn as_term(&self, i: usize, node: Node) -> (r: Result<Linear, ParseError>)
        ensures
            match r {
                Ok(l) => node@ == NodeV::Term(l@),
                Err(e) => !(node@ is Term) && grammar::as_term(self@, i as int, node@) == Err::<
                    linear::LinV,
                    ErrV,
                >(e@),
            },
    {
        match node {
            Node::Term(l) => Ok(l),
            Node::Formula(_) => Err(self.err(i, "a condition cannot be used inside arithmetic")),
            Node::Str(s) => {
                let message = cat3(
                    "the text \"",
                    s.as_str(),
                    "\" cannot be used in arithmetic",
                );
                Err(self.err(i, message.as_str()))
            },
            Node::EnumRef(v) => {
                let message = cat3("'", v.as_str(), "' is an enum and cannot be used in arithmetic");
                Err(self.err(i, message.as_str()))
            },
        }
    }

    /// The operands as conditions.
    fn as_formulas(&self, i: usize, nodes: Vec<Node>) -> (r: Result<Vec<Expr>, ParseError>)
        requires
            forall|k: int|
                0 <= k < nodes@.len() ==> grammar::lawful_node(
                    self.env@,
                    (#[trigger] nodes@[k])@,
                ),
        ensures
            match r {
                Ok(v) => grammar::as_formulas(self@, i as int, node_views(nodes@)) == Ok::<
                    Seq<ExprV>,
                    ErrV,
                >(logic::exprs(v@)) && grammar::lawful_all(self.env@, logic::exprs(v@)),
                Err(e) => grammar::as_formulas(self@, i as int, node_views(nodes@)) == Err::<
                    Seq<ExprV>,
                    ErrV,
                >(e@),
            },
    {
        let ghost all = node_views(nodes@);
        let mut rest = nodes;
        let mut out: Vec<Expr> = Vec::new();
        let n = rest.len();
        let mut k: usize = 0;
        assert(logic::exprs(out@) =~= Seq::empty());
        while k < n
            invariant
                k <= n,
                n == rest@.len(),
                n == all.len(),
                all == node_views(nodes@),
                forall|m: int| k <= m < n ==> (#[trigger] rest@[m])@ == all[m],
                forall|m: int|
                    0 <= m < n ==> grammar::lawful_node(self.env@, #[trigger] all[m]),
                grammar::as_formulas(self@, i as int, all.take(k as int)) == Ok::<
                    Seq<ExprV>,
                    ErrV,
                >(logic::exprs(out@)),
                grammar::lawful_all(self.env@, logic::exprs(out@)),
            decreases n - k,
        {
            let mut node = Node::Formula(Expr::Const(true));
            std::mem::swap(&mut node, &mut rest[k]);
            let ghost before = logic::exprs(out@);
            proof {
                assert(all.take(k + 1).drop_last() =~= all.take(k as int));
                assert(all.take(k + 1).last() == all[k as int]);
                assert(node@ == all[k as int]);
                assert(grammar::lawful_node(self.env@, all[k as int]));
            }
            match self.as_formula(i, node) {
                Ok(e) => {
                    out.push(e);
                    proof {
                        let after = logic::exprs(out@);
                        assert(after =~= before.push(e@));
                        assert forall|m: int| 0 <= m < after.len() implies grammar::lawful(
                            self.env@,
                            #[trigger] after[m],
                        ) by {
                            if m < before.len() {
                                assert(after[m] == before[m]);
                            }
                        }
                    }
                },
                Err(e) => {
                    proof {
                        lemma_formulas_err(self@, i as int, all, k + 1);
                    }
                    return Err(e);
                },
            }
            k += 1;
        }
        assert(all.take(k as int) =~= all);
        Ok(out)
    }

    /// The comparison that stands at `i`.
    fn relation(&self, i: usize) -> (r: Option<Relation>)
        ensures
            r == grammar::relation_at(self@, i as int),
            r is Some ==> i < self.toks@.len() && i < usize::MAX,
    {
        if i < self.toks.len() {
            match self.toks[i].0 {
                Tok::Le => Some(Relation::Le),
                Tok::Lt => Some(Relation::Lt),
                Tok::Ge => Some(Relation::Ge),
                Tok::Gt => Some(Relation::Gt),
                Tok::Eq => Some(Relation::Eq),
                Tok::Ne => Some(Relation::Ne),
                _ => None,
            }
        } else {
            None
        }
    }

    /// A comparison of an enum variable with a value.
    fn compare_enum(&self, i: usize, var: String, value: String, op: Relation) -> (r: Result<
        Expr,
        ParseError,
    >)
        ensures
            match r {
                Ok(e) => grammar::enum_comparison(
                    self.env@,
                    self@,
                    i as int,
                    var@,
                    value@,
                    op,
                ) == Ok::<ExprV, ErrV>(e@),
                Err(e) => grammar::enum_comparison(
                    self.env@,
                    self@,
                    i as int,
                    var@,
                    value@,
                    op,
                ) == Err::<ExprV, ErrV>(e@),
            },
    {
        if let Some(VarType::Enum { values }) = self.env.get(var.as_str()) {
            if !holds_text(values, value.as_str()) {
                let declared = join(values, ", ");
                let mut message = cat5(
                    "\"",
                    value.as_str(),
                    "\" is not a declared value of '",
                    var.as_str(),
                    "' (declared: ",
                );
                message.append(declared.as_str());
                message.append(")");
                return Err(self.err(i, message.as_str()));
            }
        }
        match op {
            Relation::Eq => Ok(Expr::EnumEq(var, value)),
            Relation::Ne => Ok(Expr::EnumEq(var, value).not()),
            _ => {
                let message = cat3(
                    "'",
                    var.as_str(),
                    "' is an enum, so it can only be compared with == or !=",
                );
                Err(self.err(i, message.as_str()))
            },
        }
    }

    fn enum_misused(&self, i: usize, var: &str) -> (r: ParseError)
        ensures
            r@ == grammar::enum_misused(self@, i as int, var@),
    {
        let message = cat3(
            "'",
            var,
            "' is an enum and must be compared with one of its declared values, written in quotes",
        );
        self.err(i, message.as_str())
    }

    fn text_misused(&self, i: usize, s: &str) -> (r: ParseError)
        ensures
            r@ == grammar::text_misused(self@, i as int, s@),
    {
        let message = cat3("the text \"", s, "\" can only be compared with an enum variable");
        self.err(i, message.as_str())
    }

    /// A comparison of two numbers in normal form.
    fn compare_terms(&self, i: usize, a: &Linear, op: Relation, b: &Linear) -> (r: Result<
        Expr,
        ParseError,
    >)
        ensures
            match r {
                Ok(e) => grammar::comparison(
                    self.env@,
                    self@,
                    i as int,
                    NodeV::Term(a@),
                    op,
                    NodeV::Term(b@),
                ) == Ok::<ExprV, ErrV>(e@),
                Err(e) => grammar::comparison(
                    self.env@,
                    self@,
                    i as int,
                    NodeV::Term(a@),
                    op,
                    NodeV::Term(b@),
                ) == Err::<ExprV, ErrV>(e@),
            },
    {
        proof {
            reveal(grammar::comparison);
        }
        let diff = match a.sub(b) {
            Some(d) => d,
            None => {
                return Err(self.err(i, "arithmetic overflowed while normalizing"));
            },
        };
        let neg = match diff.neg() {
            Some(n) => n,
            None => {
                return Err(self.err(i, "arithmetic overflowed while normalizing"));
            },
        };
        let e = match op {
            Relation::Le => Expr::Le(diff),
            Relation::Lt => Expr::Lt(diff),
            Relation::Ge => Expr::Le(neg),
            Relation::Gt => Expr::Lt(neg),
            // a == b  ⇔  a - b <= 0  ∧  b - a <= 0
            Relation::Eq => {
                let ghost parts = seq![ExprV::Le(diff@), ExprV::Le(neg@)];
                let mut items: Vec<Expr> = Vec::new();
                items.push(Expr::Le(diff));
                items.push(Expr::Le(neg));
                assert(logic::exprs(items@) =~= parts);
                Expr::and(items)
            },
            // a != b  ⇔  a - b < 0  ∨  b - a < 0
            Relation::Ne => {
                let ghost parts = seq![ExprV::Lt(diff@), ExprV::Lt(neg@)];
                let mut items: Vec<Expr> = Vec::new();
                items.push(Expr::Lt(diff));
                items.push(Expr::Lt(neg));
                assert(logic::exprs(items@) =~= parts);
                Expr::or(items)
            },
        };
        Ok(e)
    }

    fn build_comparison(&self, i: usize, left: Node, op: Relation, right: Node) -> (r: Result<
        Expr,
        ParseError,
    >)
        ensures
            match r {
                Ok(e) => grammar::comparison(
                    self.env@,
                    self@,
                    i as int,
                    left@,
                    op,
                    right@,
                ) == Ok::<ExprV, ErrV>(e@),
                Err(e) => grammar::comparison(
                    self.env@,
                    self@,
                    i as int,
                    left@,
                    op,
                    right@,
                ) == Err::<ExprV, ErrV>(e@),
            },
    {
        proof {
            reveal(grammar::comparison);
        }
        match (left, right) {
            // enum == "value"
            (Node::EnumRef(var), Node::Str(value)) => self.compare_enum(i, var, value, op),
            (Node::Str(value), Node::EnumRef(var)) => self.compare_enum(i, var, value, op),
            (Node::Term(a), Node::Term(b)) => self.compare_terms(i, &a, op, &b),
            (Node::Formula(a), Node::Formula(b)) => match op {
                Relation::Eq => Ok(a.iff(b)),
                Relation::Ne => Ok(a.iff(b).not()),
                _ => Err(self.err(i, "booleans can only be compared with == or !=")),
            },
            (Node::EnumRef(var), _) => Err(self.enum_misused(i, var.as_str())),
            (_, Node::EnumRef(var)) => Err(self.enum_misused(i, var.as_str())),
            (Node::Str(s), _) => Err(self.text_misused(i, s.as_str())),
            (_, Node::Str(s)) => Err(self.text_misused(i, s.as_str())),
            _ => Err(self.err(i, "these two operands have different types")),
        }
    }
}

proof fn lemma_formulas_err(toks: Toks, i: int, nodes: Seq<NodeV>, k: int)
    requires
        0 <= k <= nodes.len(),
        grammar::as_formulas(toks, i, nodes.take(k)) is Err,
    ensures
        grammar::as_formulas(toks, i, nodes) == grammar::as_formulas(toks, i, nodes.take(k)),
    decreases nodes.len() - k,
{
    if k < nodes.len() {
        assert(nodes.take(k + 1).drop_last() =~= nodes.take(k));
        lemma_formulas_err(toks, i, nodes, k + 1);
    } else {
        assert(nodes.take(k) =~= nodes);
    }
}

/// An operand in front of others, with where they end.
spec fn chained(
    first: NodeV,
    rest: Result<(Seq<NodeV>, int), ErrV>,
) -> Result<(Seq<NodeV>, int), ErrV> {
    match rest {
        Err(e) => Err(e),
        Ok((more, k)) => Ok((seq![first] + more, k)),
    }
}

/// Operands in front of others, with where they end.
spec fn joined_to(
    front: Seq<NodeV>,
    rest: Result<(Seq<NodeV>, int), ErrV>,
) -> Result<(Seq<NodeV>, int), ErrV> {
    match rest {
        Err(e) => Err(e),
        Ok((more, k)) => Ok((front + more, k)),
    }
}

impl<'a> Parser<'a> {
    /// implies := or ( ("->" | "<->") implies )?   — right associative, lowest precedence
    fn parse_implies(&self, i: usize) -> (r: Result<(Node, usize), ParseError>)
        requires
            i <= self.toks@.len(),
        ensures
            seen(r) == grammar::implies_at(self.env@, self@, i as int),
            sound(*self, i as int, r),
        decreases self.toks@.len() - i, 9nat,
    {
        let (left, j) = match self.parse_or(i) {
            Ok(p) => p,
            Err(e) => {
                return Err(e);
            },
        };
        let arrow = self.is_arrow(j);
        if arrow || self.is_iff(j) {
            let (right, k) = match self.parse_implies(j + 1) {
                Ok(p) => p,
                Err(e) => {
                    return Err(e);
                },
            };
            let a = match self.as_formula(k, left) {
                Ok(a) => a,
                Err(e) => {
                    return Err(e);
                },
            };
            let b = match self.as_formula(k, right) {
                Ok(b) => b,
                Err(e) => {
                    return Err(e);
                },
            };
            proof {
                grammar::lemma_lawful_arrows(self.env@, a@, b@);
            }
            let f = if arrow {
                a.implies(b)
            } else {
                a.iff(b)
            };
            return Ok((Node::Formula(f), k));
        }
        Ok((left, j))
    }

    /// or := and ( "or" and )*
    fn parse_or(&self, i: usize) -> (r: Result<(Node, usize), ParseError>)
        requires
            i <= self.toks@.len(),
        ensures
            seen(r) == grammar::or_at(self.env@, self@, i as int),
            sound(*self, i as int, r),
        decreases self.toks@.len() - i, 8nat,
    {
        let (first, start) = match self.parse_and(i) {
            Ok(p) => p,
            Err(e) => {
                return Err(e);
            },
        };
        let ghost first_view = first@;
        let mut items: Vec<Node> = Vec::new();
        items.push(first);
        let mut k: usize = start;
        proof {
            let more = grammar::or_tail(self.env@, self@, start as int);
            assert(node_views(items@) =~= seq![first_view]);
            if let Ok((rest, _)) = more {
                assert(seq![first_view] + rest =~= node_views(items@) + rest);
            }
        }
        while self.is_or(k)
            invariant
                i < start <= k <= self.toks@.len(),
                items@.len() >= 1,
                k == start ==> items@.len() == 1,
                k > start ==> items@.len() > 1,
                node_views(items@)[0] == first_view,
                grammar::and_at(self.env@, self@, i as int) == Ok::<(NodeV, int), ErrV>(
                    (first_view, start as int),
                ),
                chained(first_view, grammar::or_tail(self.env@, self@, start as int))
                    == joined_to(
                    node_views(items@),
                    grammar::or_tail(self.env@, self@, k as int),
                ),
                forall|m: int|
                    0 <= m < items@.len() ==> grammar::lawful_node(
                        self.env@,
                        (#[trigger] items@[m])@,
                    ),
            decreases self.toks@.len() - k,
        {
            let ghost before = node_views(items@);
            match self.parse_and(k + 1) {
                Ok((node, j)) => {
                    let ghost shown = node@;
                    items.push(node);
                    proof {
                        assert(node_views(items@) =~= before.push(shown));
                        if let Ok((rest, _)) = grammar::or_tail(self.env@, self@, j as int) {
                            assert(before + (seq![shown] + rest) =~= before.push(shown) + rest);
                        }
                    }
                    k = j;
                },
                Err(e) => {
                    return Err(e);
                },
            }
        }
        proof {
            assert(node_views(items@) + Seq::<NodeV>::empty() =~= node_views(items@));
        }
        if items.len() == 1 {
            proof {
                let more = grammar::or_tail(self.env@, self@, start as int)->Ok_0.0;
                assert((seq![first_view] + more).len() == 1);
                assert(node_views(items@)[0] == items@[0]@);
            }
            match items.pop() {
                Some(only) => Ok((only, k)),
                None => Err(self.err(k, "expression ended early")),
            }
        } else {
            match self.as_formulas(k, items) {
                Ok(fs) => {
                    proof {
                        grammar::lemma_lawful_junction(self.env@, logic::exprs(fs@));
                    }
                    Ok((Node::Formula(Expr::or(fs)), k))
                },
                Err(e) => Err(e),
            }
        }
    }

    /// and := not ( "and" not )*
    fn parse_and(&self, i: usize) -> (r: Result<(Node, usize), ParseError>)
        requires
            i <= self.toks@.len(),
        ensures
            seen(r) == grammar::and_at(self.env@, self@, i as int),
            sound(*self, i as int, r),
        decreases self.toks@.len() - i, 7nat,
    {
        let (first, start) = match self.parse_not(i) {
            Ok(p) => p,
            Err(e) => {
                return Err(e);
            },
        };
        let ghost first_view = first@;
        let mut items: Vec<Node> = Vec::new();
        items.push(first);
        let mut k: usize = start;
        proof {
            let more = grammar::and_tail(self.env@, self@, start as int);
            assert(node_views(items@) =~= seq![first_view]);
            if let Ok((rest, _)) = more {
                assert(seq![first_view] + rest =~= node_views(items@) + rest);
            }
        }
        while self.is_and(k)
            invariant
                i < start <= k <= self.toks@.len(),
                items@.len() >= 1,
                k == start ==> items@.len() == 1,
                k > start ==> items@.len() > 1,
                node_views(items@)[0] == first_view,
                grammar::not_at(self.env@, self@, i as int) == Ok::<(NodeV, int), ErrV>(
                    (first_view, start as int),
                ),
                chained(first_view, grammar::and_tail(self.env@, self@, start as int))
                    == joined_to(
                    node_views(items@),
                    grammar::and_tail(self.env@, self@, k as int),
                ),
                forall|m: int|
                    0 <= m < items@.len() ==> grammar::lawful_node(
                        self.env@,
                        (#[trigger] items@[m])@,
                    ),
            decreases self.toks@.len() - k,
        {
            let ghost before = node_views(items@);
            match self.parse_not(k + 1) {
                Ok((node, j)) => {
                    let ghost shown = node@;
                    items.push(node);
                    proof {
                        assert(node_views(items@) =~= before.push(shown));
                        if let Ok((rest, _)) = grammar::and_tail(self.env@, self@, j as int) {
                            assert(before + (seq![shown] + rest) =~= before.push(shown) + rest);
                        }
                    }
                    k = j;
                },
                Err(e) => {
                    return Err(e);
                },
            }
        }
        proof {
            assert(node_views(items@) + Seq::<NodeV>::empty() =~= node_views(items@));
        }
        if items.len() == 1 {
            proof {
                let more = grammar::and_tail(self.env@, self@, start as int)->Ok_0.0;
                assert((seq![first_view] + more).len() == 1);
                assert(node_views(items@)[0] == items@[0]@);
            }
            match items.pop() {
                Some(only) => Ok((only, k)),
                None => Err(self.err(k, "expression ended early")),
            }
        } else {
            match self.as_formulas(k, items) {
                Ok(fs) => {
                    proof {
                        grammar::lemma_lawful_junction(self.env@, logic::exprs(fs@));
                    }
                    Ok((Node::Formula(Expr::and(fs)), k))
                },
                Err(e) => Err(e),
            }
        }
    }

    /// not := "not" not | comparison
    fn parse_not(&self, i: usize) -> (r: Result<(Node, usize), ParseError>)
        requires
            i <= self.toks@.len(),
        ensures
            seen(r) == grammar::not_at(self.env@, self@, i as int),
            sound(*self, i as int, r),
        decreases self.toks@.len() - i, 6nat,
    {
        if self.is_not(i) {
            let (inner, j) = match self.parse_not(i + 1) {
                Ok(p) => p,
                Err(e) => {
                    return Err(e);
                },
            };
            match self.as_formula(j, inner) {
                Ok(f) => {
                    proof {
                        grammar::lemma_lawful_negation(self.env@, f@);
                    }
                    Ok((Node::Formula(f.not()), j))
                },
                Err(e) => Err(e),
            }
        } else {
            self.parse_comparison(i)
        }
    }

    /// comparison := sum ( relation sum )?
    fn parse_comparison(&self, i: usize) -> (r: Result<(Node, usize), ParseError>)
        requires
            i <= self.toks@.len(),
        ensures
            seen(r) == grammar::comparison_at(self.env@, self@, i as int),
            sound(*self, i as int, r),
        decreases self.toks@.len() - i, 5nat,
    {
        let (left, j) = match self.parse_sum(i) {
            Ok(p) => p,
            Err(e) => {
                return Err(e);
            },
        };
        let op = match self.relation(j) {
            Some(op) => op,
            None => {
                return Ok((left, j));
            },
        };
        let (right, k) = match self.parse_sum(j + 1) {
            Ok(p) => p,
            Err(e) => {
                return Err(e);
            },
        };
        proof {
            grammar::lemma_lawful_comparison(self.env@, self@, k as int, left@, op, right@);
        }
        match self.build_comparison(k, left, op, right) {
            Ok(f) => Ok((Node::Formula(f), k)),
            Err(e) => Err(e),
        }
    }

    /// The sum or difference of two operands.
    fn combine_sum(&self, i: usize, left: Node, right: Node, negate: bool) -> (r: Result<
        Node,
        ParseError,
    >)
        ensures
            match r {
                Ok(n) => grammar::sum_of(self@, i as int, left@, right@, negate) == Ok::<
                    NodeV,
                    ErrV,
                >(n@),
                Err(e) => grammar::sum_of(self@, i as int, left@, right@, negate) == Err::<
                    NodeV,
                    ErrV,
                >(e@),
            },
    {
        proof {
            reveal(grammar::sum_of);
        }
        let a = match self.as_term(i, left) {
            Ok(a) => a,
            Err(e) => {
                return Err(e);
            },
        };
        let b = match self.as_term(i, right) {
            Ok(b) => b,
            Err(e) => {
                return Err(e);
            },
        };
        let combined = if negate {
            a.sub(&b)
        } else {
            a.add(&b)
        };
        match combined {
            Some(l) => Ok(Node::Term(l)),
            None => Err(self.err(i, "arithmetic overflowed")),
        }
    }

    /// sum := product ( ("+" | "-") product )*
    fn parse_sum(&self, i: usize) -> (r: Result<(Node, usize), ParseError>)
        requires
            i <= self.toks@.len(),
        ensures
            seen(r) == grammar::sum_at(self.env@, self@, i as int),
            sound(*self, i as int, r),
        decreases self.toks@.len() - i, 4nat,
    {
        let (first, start) = match self.parse_product(i) {
            Ok(p) => p,
            Err(e) => {
                return Err(e);
            },
        };
        let mut left = first;
        let mut k: usize = start;
        while self.is_plus(k) || self.is_minus(k)
            invariant
                i < k <= self.toks@.len(),
                grammar::sum_at(self.env@, self@, i as int) == grammar::sum_tail(
                    self.env@,
                    self@,
                    left@,
                    k as int,
                ),
                grammar::lawful_node(self.env@, left@),
            decreases self.toks@.len() - k,
        {
            let negate = self.is_minus(k);
            let (right, j) = match self.parse_product(k + 1) {
                Ok(p) => p,
                Err(e) => {
                    return Err(e);
                },
            };
            proof {
                grammar::lemma_lawful_arithmetic(
                    self.env@,
                    self@,
                    j as int,
                    left@,
                    right@,
                    negate,
                );
            }
            left = match self.combine_sum(j, left, right, negate) {
                Ok(n) => n,
                Err(e) => {
                    return Err(e);
                },
            };
            k = j;
        }
        Ok((left, k))
    }

    /// The product or quotient of two operands. Linear only: at least one side must be
    /// a constant, or the result leaves the fragment the solver can decide.
    fn combine_product(&self, i: usize, left: Node, right: Node, divide: bool) -> (r: Result<
        Node,
        ParseError,
    >)
        ensures
            match r {
                Ok(n) => grammar::product_of(self@, i as int, left@, right@, divide) == Ok::<
                    NodeV,
                    ErrV,
                >(n@),
                Err(e) => grammar::product_of(self@, i as int, left@, right@, divide) == Err::<
                    NodeV,
                    ErrV,
                >(e@),
            },
    {
        proof {
            reveal(grammar::product_of);
        }
        let a = match self.as_term(i, left) {
            Ok(a) => a,
            Err(e) => {
                return Err(e);
            },
        };
        let b = match self.as_term(i, right) {
            Ok(b) => b,
            Err(e) => {
                return Err(e);
            },
        };
        let combined = if divide {
            if !b.is_constant() {
                return Err(
                    self.err(
                        i,
                        "division by a variable is not supported — rules must stay linear",
                    ),
                );
            }
            match Rat::one().div(b.offset()) {
                Some(k) => a.scale(k),
                None => {
                    return Err(self.err(i, "division by zero"));
                },
            }
        } else if a.is_constant() {
            b.scale(a.offset())
        } else if b.is_constant() {
            a.scale(b.offset())
        } else {
            return Err(
                self.err(
                    i,
                    "two variables cannot be multiplied — rules must stay linear (multiply by a number instead)",
                ),
            );
        };
        match combined {
            Some(l) => Ok(Node::Term(l)),
            None => Err(self.err(i, "arithmetic overflowed")),
        }
    }

    /// product := unary ( ("*" | "/") unary )*
    fn parse_product(&self, i: usize) -> (r: Result<(Node, usize), ParseError>)
        requires
            i <= self.toks@.len(),
        ensures
            seen(r) == grammar::product_at(self.env@, self@, i as int),
            sound(*self, i as int, r),
        decreases self.toks@.len() - i, 3nat,
    {
        let (first, start) = match self.parse_unary(i) {
            Ok(p) => p,
            Err(e) => {
                return Err(e);
            },
        };
        let mut left = first;
        let mut k: usize = start;
        while self.is_star(k) || self.is_slash(k)
            invariant
                i < k <= self.toks@.len(),
                grammar::product_at(self.env@, self@, i as int) == grammar::product_tail(
                    self.env@,
                    self@,
                    left@,
                    k as int,
                ),
                grammar::lawful_node(self.env@, left@),
            decreases self.toks@.len() - k,
        {
            let divide = self.is_slash(k);
            let (right, j) = match self.parse_unary(k + 1) {
                Ok(p) => p,
                Err(e) => {
                    return Err(e);
                },
            };
            proof {
                grammar::lemma_lawful_arithmetic(
                    self.env@,
                    self@,
                    j as int,
                    left@,
                    right@,
                    divide,
                );
            }
            left = match self.combine_product(j, left, right, divide) {
                Ok(n) => n,
                Err(e) => {
                    return Err(e);
                },
            };
            k = j;
        }
        Ok((left, k))
    }

    /// unary := "-" unary | "+" unary | primary
    fn parse_unary(&self, i: usize) -> (r: Result<(Node, usize), ParseError>)
        requires
            i <= self.toks@.len(),
        ensures
            seen(r) == grammar::unary_at(self.env@, self@, i as int),
            sound(*self, i as int, r),
        decreases self.toks@.len() - i, 2nat,
    {
        if self.is_minus(i) {
            let (inner, j) = match self.parse_unary(i + 1) {
                Ok(p) => p,
                Err(e) => {
                    return Err(e);
                },
            };
            let term = match self.as_term(j, inner) {
                Ok(l) => l,
                Err(e) => {
                    return Err(e);
                },
            };
            proof {
                grammar::lemma_lawful_opposite(self.env@, term@);
            }
            match term.neg() {
                Some(o) => Ok((Node::Term(o), j)),
                None => Err(self.err(j, "arithmetic overflowed")),
            }
        } else if self.is_plus(i) {
            self.parse_unary(i + 1)
        } else {
            self.parse_primary(i)
        }
    }

    /// A name as an operand.
    fn name_node(&self, i: usize, name: &String) -> (r: Result<Node, ParseError>)
        ensures
            match r {
                Ok(n) => grammar::name_node(self.env@, self@, i as int, name@) == Ok::<
                    NodeV,
                    ErrV,
                >(n@),
                Err(e) => grammar::name_node(self.env@, self@, i as int, name@) == Err::<
                    NodeV,
                    ErrV,
                >(e@),
            },
    {
        proof {
            reveal(grammar::name_node);
        }
        let lower = lower_text(name.as_str());
        if same(lower.as_str(), "true") {
            return Ok(Node::Formula(Expr::Const(true)));
        }
        if same(lower.as_str(), "false") {
            return Ok(Node::Formula(Expr::Const(false)));
        }
        match self.env.get(name.as_str()) {
            Some(VarType::Bool) => Ok(Node::Formula(Expr::Bool(name.clone()))),
            Some(VarType::Int) => Ok(Node::Term(Linear::var(name.as_str()))),
            Some(VarType::Real) => Ok(Node::Term(Linear::var(name.as_str()))),
            Some(VarType::Enum { .. }) => Ok(Node::EnumRef(name.clone())),
            None => {
                let message = cat3(
                    "'",
                    name.as_str(),
                    "' is not a declared variable of this policy",
                );
                Err(self.err(i, message.as_str()))
            },
        }
    }

    /// primary := "(" implies ")" | number | string | name
    fn parse_primary(&self, i: usize) -> (r: Result<(Node, usize), ParseError>)
        requires
            i <= self.toks@.len(),
        ensures
            seen(r) == grammar::primary_at(self.env@, self@, i as int),
            sound(*self, i as int, r),
        decreases self.toks@.len() - i, 1nat,
    {
        if i >= self.toks.len() {
            return Err(self.err(i, "expression ended early"));
        }
        match &self.toks[i].0 {
            Tok::LParen => {
                let (inner, j) = match self.parse_implies(i + 1) {
                    Ok(p) => p,
                    Err(e) => {
                        return Err(e);
                    },
                };
                if self.closes(j) {
                    Ok((inner, j + 1))
                } else {
                    Err(self.err(j, "missing ')'"))
                }
            },
            Tok::Number(v) => Ok((Node::Term(Linear::constant(*v)), i + 1)),
            Tok::Str(s) => Ok((Node::Str(s.clone()), i + 1)),
            Tok::Ident(name) => {
                proof {
                    grammar::lemma_lawful_name(self.env@, self@, i + 1, name@);
                }
                match self.name_node(i + 1, name) {
                    Ok(node) => Ok((node, i + 1)),
                    Err(e) => Err(e),
                }
            },
            other => {
                let message = cat2("unexpected token ", token_name(other));
                Err(self.err(i, message.as_str()))
            },
        }
    }
}

/// How a token is named in an error.
fn token_name(t: &Tok) -> (r: &'static str)
    ensures
        r@ == grammar::token_name(t@),
{
    match t {
        Tok::RParen => "RParen",
        Tok::Plus => "Plus",
        Tok::Minus => "Minus",
        Tok::Star => "Star",
        Tok::Slash => "Slash",
        Tok::Le => "Le",
        Tok::Lt => "Lt",
        Tok::Ge => "Ge",
        Tok::Gt => "Gt",
        Tok::Eq => "Eq",
        Tok::Ne => "Ne",
        Tok::Arrow => "Arrow",
        Tok::And => "And",
        Tok::Or => "Or",
        Tok::Not => "Not",
        Tok::Iff => "Iff",
        _ => "LParen",
    }
}

/// Parse one DSL line into a formula, checked against the declared variables: every
/// variable of the formula is declared and used as its sort says, and every enum value
/// is a declared one.
pub fn parse(src: &str, env: &Env) -> (r: Result<Expr, ParseError>)
    ensures
        match r {
            Ok(e) => grammar::parsed(src@, env@) == Ok::<ExprV, ErrV>(e@) && grammar::lawful(
                env@,
                e@,
            ),
            Err(e) => grammar::parsed(src@, env@) == Err::<ExprV, ErrV>(e@),
        },
{
    proof {
        reveal(grammar::parsed);
    }
    let toks = match tokens(src) {
        Ok(toks) => toks,
        Err(e) => {
            return Err(e);
        },
    };
    if toks.len() == 0 {
        return Err(ParseError { message: "the expression is empty".to_owned(), position: 0 });
    }
    let parser = Parser { toks, env };
    let (node, i) = match parser.parse_implies(0) {
        Ok(p) => p,
        Err(e) => {
            return Err(e);
        },
    };
    if i < parser.toks.len() {
        return Err(parser.err(i, "unexpected trailing input"));
    }
    parser.as_formula(i, node)
}

} // verus!
