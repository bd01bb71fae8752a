//! The formal language a policy is compiled into.
//!
//! Deliberately small, because the size of this language is exactly the set of
//! claims the solver can decide **completely**. Everything here is quantifier-free
//! over three sorts:
//!
//! * `bool` — a propositional variable;
//! * `enum` — a variable ranging over a finite, declared set of string values;
//! * `int` / `real` — a numeric variable constrained by *linear* comparisons.
//!
//! # Normal form
//!
//! Parsing normalizes away every derived connective and comparison, leaving four
//! atom shapes: a bool variable, an `enum == "value"` test, `linear <= 0`, and
//! `linear < 0`. Negating an atom stays inside the language — `!(l <= 0)` is
//! `-l < 0` — which is what lets the solver case-split on atoms without ever leaving
//! the fragment.

use vstd::prelude::*;

use crate::linear;
use crate::linear::{LinV, Terms};
use crate::names;
use crate::names::NameMap;
use crate::num;
use crate::num::Rat;
use crate::reading;
use crate::text;
use crate::text::{cat2, cat3, cat4, chars_of, copy_texts, join, same, text_rank, Rank};

verus! {

/// The sort of a policy variable.
#[derive(Debug, PartialEq, Eq)]
pub enum VarType {
    Bool,
    Int,
    Real,
    Enum { values: Vec<String> },
}

/// A sort, with the values of an enumeration as sequences of characters.
#[verifier::ext_equal]
pub enum VarTypeV {
    Bool,
    Int,
    Real,
    Enum { values: Seq<Seq<char>> },
}

impl View for VarType {
    type V = VarTypeV;

    open spec fn view(&self) -> VarTypeV {
        match self {
            VarType::Bool => VarTypeV::Bool,
            VarType::Int => VarTypeV::Int,
            VarType::Real => VarTypeV::Real,
            VarType::Enum { values } => VarTypeV::Enum { values: text::texts(values@) },
        }
    }
}

impl Clone for VarType {
    fn clone(&self) -> (r: VarType)
        ensures
            r@ == self@,
    {
        match self {
            VarType::Bool => VarType::Bool,
            VarType::Int => VarType::Int,
            VarType::Real => VarType::Real,
            VarType::Enum { values } => VarType::Enum { values: copy_texts(values) },
        }
    }
}

impl VarType {
    /// Is the sort one of numbers?
    pub fn is_numeric(&self) -> (b: bool)
        ensures
            b == (self@ is Int || self@ is Real),
    {
        match self {
            VarType::Int => true,
            VarType::Real => true,
            _ => false,
        }
    }

    /// The name of the sort.
    pub fn label(&self) -> (r: &'static str)
        ensures
            r@ == label_of(self@),
    {
        match self {
            VarType::Bool => "bool",
            VarType::Int => "int",
            VarType::Real => "real",
            VarType::Enum { .. } => "enum",
        }
    }
}

/// The name of a sort.
pub open spec fn label_of(ty: VarTypeV) -> Seq<char> {
    match ty {
        VarTypeV::Bool => "bool"@,
        VarTypeV::Int => "int"@,
        VarTypeV::Real => "real"@,
        VarTypeV::Enum { .. } => "enum"@,
    }
}

/// A declared policy variable. `description` is not decoration: it is the text the
/// extraction model reads when deciding which variable a sentence is talking about,
/// so synonyms and examples belong in it.
#[derive(Debug, PartialEq, Eq)]
pub struct Variable {
    pub name: String,
    pub ty: VarType,
    pub description: String,
}

/// A declared variable by its contents.
#[verifier::ext_equal]
pub struct VariableV {
    pub name: Seq<char>,
    pub ty: VarTypeV,
    pub description: Seq<char>,
}

impl View for Variable {
    type V = VariableV;

    open spec fn view(&self) -> VariableV {
        VariableV { name: self.name@, ty: self.ty@, description: self.description@ }
    }
}

impl Clone for Variable {
    fn clone(&self) -> (r: Variable)
        ensures
            r@ == self@,
    {
        Variable {
            name: self.name.clone(),
            ty: self.ty.clone(),
            description: self.description.clone(),
        }
    }
}

/// A linear form `k + Σ cᵢ·xᵢ` over numeric variables.
///
/// Invariant: the terms are sorted by variable name and no coefficient is zero, so two
/// equal forms are structurally equal.
#[derive(Debug, PartialEq, Eq)]
pub struct Linear {
    constant: Rat,
    terms: NameMap<Rat>,
}

impl View for Linear {
    type V = LinV;

    closed spec fn view(&self) -> LinV {
        LinV { constant: self.constant, terms: self.terms@ }
    }
}

impl Clone for Linear {
    fn clone(&self) -> (r: Linear)
        ensures
            r@ == self@,
            linear::lin_wf(r@),
    {
        proof {
            use_type_invariant(self);
        }
        let mut terms: NameMap<Rat> = NameMap::new();
        let n = self.terms.len();
        let mut i: usize = 0;
        while i < n
            invariant
                n == self.terms@.len(),
                i <= n,
                names::ordered(self.terms@),
                terms@ == self.terms@.take(i as int),
            decreases n - i,
        {
            terms.push(self.terms.name_at(i).clone(), *self.terms.value_at(i));
            i += 1;
            assert(terms@ =~= self.terms@.take(i as int));
        }
        assert(self.terms@.take(n as int) =~= self.terms@);
        Linear { constant: self.constant, terms }
    }
}

/// Terms in front of others.
spec fn prepend(front: Terms, rest: Option<Terms>) -> Option<Terms> {
    match rest {
        Some(t) => Some(front + t),
        None => None,
    }
}

proof fn lemma_prepend_cons(front: Terms, first: (Seq<char>, Rat), rest: Option<Terms>)
    ensures
        prepend(front, linear::cons(first, rest)) == prepend(front.push(first), rest),
{
    if let Some(t) = rest {
        assert(front + (seq![first] + t) =~= front.push(first) + t);
    }
}

proof fn lemma_skip_first(t: Terms, i: int)
    requires
        0 <= i < t.len(),
    ensures
        t.skip(i)[0] == t[i],
        t.skip(i).drop_first() == t.skip(i + 1),
        t.skip(i) == seq![t[i]] + t.skip(i + 1),
{
    assert(t.skip(i).drop_first() =~= t.skip(i + 1));
    assert(t.skip(i) =~= seq![t[i]] + t.skip(i + 1));
}

impl Linear {
    /// The form is in normal form.
    #[verifier::type_invariant]
    pub closed spec fn wf(&self) -> bool {
        linear::lin_wf(self@)
    }

    /// What the invariant says.
    pub proof fn lemma_wf(&self)
        requires
            self.wf(),
        ensures
            linear::lin_wf(self@),
    {
    }

    /// The constant form `k`.
    pub fn constant(k: Rat) -> (r: Linear)
        ensures
            r@ == linear::constant_form(k),
            linear::lin_wf(r@),
    {
        proof {
            use_type_invariant(k);
        }
        Linear { constant: k, terms: NameMap::new() }
    }

    /// The form that is one variable.
    pub fn var(name: &str) -> (r: Linear)
        ensures
            r@ == linear::variable_form(name@),
            linear::lin_wf(r@),
    {
        let mut terms: NameMap<Rat> = NameMap::new();
        let one = Rat::one();
        let zero = Rat::zero();
        proof {
            Rat::lemma_whole(0);
            Rat::lemma_whole(1);
        }
        terms.push(name.to_owned(), one);
        assert(terms@ =~= seq![(name@, one)]);
        Linear { constant: zero, terms }
    }

    /// The constant part.
    pub fn offset(&self) -> (r: Rat)
        ensures
            r == self@.constant,
            linear::lin_wf(self@),
    {
        proof {
            use_type_invariant(self);
        }
        self.constant
    }

    /// The coefficients by variable name.
    pub fn terms(&self) -> (r: &NameMap<Rat>)
        ensures
            r@ == self@.terms,
            linear::lin_wf(self@),
    {
        proof {
            use_type_invariant(self);
        }
        &self.terms
    }

    /// Does no variable occur?
    pub fn is_constant(&self) -> (b: bool)
        ensures
            b == (self@.terms.len() == 0),
    {
        self.terms.is_empty()
    }

    /// The sum of two forms. `None` where a coefficient overflows.
    pub fn add(&self, other: &Linear) -> (r: Option<Linear>)
        ensures
            r is Some <==> linear::sum(self@, other@) is Some,
            r matches Some(l) ==> linear::sum(self@, other@) == Some(l@) && linear::lin_wf(l@),
    {
        proof {
            use_type_invariant(self);
            use_type_invariant(other);
        }
        let constant = self.constant.add(other.constant)?;
        let ghost a = self.terms@;
        let ghost b = other.terms@;
        let mut terms: NameMap<Rat> = NameMap::new();
        let (n, m) = (self.terms.len(), other.terms.len());
        let mut i: usize = 0;
        let mut j: usize = 0;
        assert(a.skip(0) =~= a && b.skip(0) =~= b);
        assert(prepend(terms@, linear::merged(a, b)) == linear::merged(a, b)) by {
            if let Some(t) = linear::merged(a, b) {
                assert(terms@ + t =~= t);
            }
        }
        while i < n || j < m
            invariant
                a == self.terms@,
                b == other.terms@,
                n == a.len(),
                m == b.len(),
                i <= n,
                j <= m,
                linear::terms_wf(a),
                linear::terms_wf(b),
                linear::merged(a, b) == prepend(
                    terms@,
                    linear::merged(a.skip(i as int), b.skip(j as int)),
                ),
                forall|k: int, l: int|
                    0 <= k < terms@.len() && i <= l < n ==> text::text_less(
                        (#[trigger] terms@[k]).0,
                        (#[trigger] a[l]).0,
                    ),
                forall|k: int, l: int|
                    0 <= k < terms@.len() && j <= l < m ==> text::text_less(
                        (#[trigger] terms@[k]).0,
                        (#[trigger] b[l]).0,
                    ),
            decreases (n - i) + (m - j),
        {
            let ghost rest_a = a.skip(i as int);
            let ghost rest_b = b.skip(j as int);
            proof {
                if i < n {
                    lemma_skip_first(a, i as int);
                }
                if j < m {
                    lemma_skip_first(b, j as int);
                }
            }
            let order: Rank = if i == n {
                Rank::More
            } else if j == m {
                Rank::Less
            } else {
                text_rank(self.terms.name_at(i).as_str(), other.terms.name_at(j).as_str())
            };
            match order {
                Rank::Less => {
                    proof {
                        let first = a[i as int];
                        if j < m {
                            lemma_prepend_cons(
                                terms@,
                                first,
                                linear::merged(rest_a.drop_first(), rest_b),
                            );
                            assert forall|l: int| j <= l < m implies text::text_less(
                                first.0,
                                (#[trigger] b[l]).0,
                            ) by {
                                if l > j {
                                    text::lemma_text_transitive(first.0, b[j as int].0, b[l].0);
                                }
                            }
                        } else {
                            assert(a.skip(i + 1).len() == 0 ==> a.skip(i + 1) =~= rest_b);
                            assert(terms@ + rest_a =~= terms@.push(first) + a.skip(i + 1));
                        }
                    }
                    terms.push(self.terms.name_at(i).clone(), *self.terms.value_at(i));
                    i += 1;
                },
                Rank::More => {
                    proof {
                        let first = b[j as int];
                        if i < n {
                            text::lemma_text_total(a[i as int].0, first.0);
                            lemma_prepend_cons(
                                terms@,
                                first,
                                linear::merged(rest_a, rest_b.drop_first()),
                            );
                            assert forall|l: int| i <= l < n implies text::text_less(
                                first.0,
                                (#[trigger] a[l]).0,
                            ) by {
                                if l > i {
                                    text::lemma_text_transitive(first.0, a[i as int].0, a[l].0);
                                }
                            }
                        } else {
                            assert(terms@ + rest_b =~= terms@.push(first) + b.skip(j + 1));
                        }
                    }
                    terms.push(other.terms.name_at(j).clone(), *other.terms.value_at(j));
                    j += 1;
                },
                Rank::Same => {
                    let c = match self.terms.value_at(i).add(*other.terms.value_at(j)) {
                        Some(c) => c,
                        None => {
                            return None;
                        },
                    };
                    proof {
                        c.lemma_wf();
                        lemma_prepend_cons(
                            terms@,
                            (a[i as int].0, c),
                            linear::merged(rest_a.drop_first(), rest_b.drop_first()),
                        );
                    }
                    if !c.is_zero() {
                        terms.push(self.terms.name_at(i).clone(), c);
                    }
                    i += 1;
                    j += 1;
                },
            }
        }
        proof {
            assert(a.skip(n as int) =~= Seq::empty());
            assert(b.skip(m as int) =~= Seq::empty());
            assert(terms@ + b.skip(m as int) =~= terms@);
            linear::lemma_sum(self@, other@, |x: Seq<char>| 0 as real);
        }
        Some(Linear { constant, terms })
    }

    /// The opposite form. `None` where a coefficient overflows.
    pub fn neg(&self) -> (r: Option<Linear>)
        ensures
            r is Some <==> linear::opposite(self@) is Some,
            r matches Some(l) ==> linear::opposite(self@) == Some(l@) && linear::lin_wf(l@),
    {
        proof {
            use_type_invariant(self);
        }
        let constant = self.constant.neg()?;
        let ghost a = self.terms@;
        let mut terms: NameMap<Rat> = NameMap::new();
        let n = self.terms.len();
        let mut i: usize = 0;
        assert(a.skip(0) =~= a);
        assert(prepend(terms@, linear::opposite_terms(a)) == linear::opposite_terms(a)) by {
            if let Some(t) = linear::opposite_terms(a) {
                assert(terms@ + t =~= t);
            }
        }
        while i < n
            invariant
                a == self.terms@,
                n == a.len(),
                i <= n,
                names::ordered(a),
                terms@.len() == i,
                forall|k: int| 0 <= k < i ==> (#[trigger] terms@[k]).0 == a[k].0,
                linear::opposite_terms(a) == prepend(
                    terms@,
                    linear::opposite_terms(a.skip(i as int)),
                ),
            decreases n - i,
        {
            proof {
                lemma_skip_first(a, i as int);
            }
            let c = match self.terms.value_at(i).neg() {
                Some(c) => c,
                None => {
                    return None;
                },
            };
            proof {
                lemma_prepend_cons(
                    terms@,
                    (a[i as int].0, c),
                    linear::opposite_terms(a.skip(i + 1)),
                );
            }
            terms.push(self.terms.name_at(i).clone(), c);
            i += 1;
        }
        proof {
            assert(a.skip(n as int) =~= Seq::empty());
            assert(terms@ + a.skip(n as int) =~= terms@);
            linear::lemma_opposite(self@, |x: Seq<char>| 0 as real);
        }
        Some(Linear { constant, terms })
    }

    /// The difference of two forms. `None` where a coefficient overflows.
    pub fn sub(&self, other: &Linear) -> (r: Option<Linear>)
        ensures
            r is Some <==> linear::difference(self@, other@) is Some,
            r matches Some(l) ==> linear::difference(self@, other@) == Some(l@) && linear::lin_wf(
                l@,
            ),
    {
        let o = other.neg()?;
        self.add(&o)
    }

    /// A multiple of the form. `None` where a coefficient overflows.
    pub fn scale(&self, factor: Rat) -> (r: Option<Linear>)
        ensures
            r is Some <==> linear::scaled(self@, factor) is Some,
            r matches Some(l) ==> linear::scaled(self@, factor) == Some(l@) && linear::lin_wf(l@),
    {
        proof {
            use_type_invariant(self);
            use_type_invariant(factor);
            factor.lemma_wf();
        }
        if factor.is_zero() {
            return Some(Linear::constant(Rat::zero()));
        }
        let constant = self.constant.mul(factor)?;
        let ghost a = self.terms@;
        let mut terms: NameMap<Rat> = NameMap::new();
        let n = self.terms.len();
        let mut i: usize = 0;
        assert(a.skip(0) =~= a);
        assert(prepend(terms@, linear::scaled_terms(a, factor)) == linear::scaled_terms(a, factor))
            by {
            if let Some(t) = linear::scaled_terms(a, factor) {
                assert(terms@ + t =~= t);
            }
        }
        while i < n
            invariant
                a == self.terms@,
                n == a.len(),
                i <= n,
                names::ordered(a),
                factor.n() != 0,
                terms@.len() == i,
                forall|k: int| 0 <= k < i ==> (#[trigger] terms@[k]).0 == a[k].0,
                linear::scaled_terms(a, factor) == prepend(
                    terms@,
                    linear::scaled_terms(a.skip(i as int), factor),
                ),
            decreases n - i,
        {
            proof {
                lemma_skip_first(a, i as int);
            }
            let c = match self.terms.value_at(i).mul(factor) {
                Some(c) => c,
                None => {
                    return None;
                },
            };
            proof {
                lemma_prepend_cons(
                    terms@,
                    (a[i as int].0, c),
                    linear::scaled_terms(a.skip(i + 1), factor),
                );
            }
            terms.push(self.terms.name_at(i).clone(), c);
            i += 1;
        }
        proof {
            assert(a.skip(n as int) =~= Seq::empty());
            assert(terms@ + a.skip(n as int) =~= terms@);
            linear::lemma_scaled(self@, factor, |x: Seq<char>| 0 as real);
        }
        Some(Linear { constant, terms })
    }

    /// The coefficient of a variable, zero where it does not occur.
    pub fn coeff(&self, name: &str) -> (r: Rat)
        ensures
            r == linear::coefficient(self@.terms, name@),
    {
        match self.terms.get(name) {
            Some(c) => *c,
            None => Rat::zero(),
        }
    }
}

/// The terms of a form as they stand in its key.
pub open spec fn key_of_terms(t: Terms) -> Seq<char>
    decreases t.len(),
{
    if t.len() == 0 {
        Seq::empty()
    } else {
        num::display(t[0].1.n(), t[0].1.d()) + "*"@ + t[0].0 + "+"@ + key_of_terms(t.drop_first())
    }
}

/// The key of a form: its terms in order, each followed by a plus sign, and its
/// constant.
pub open spec fn key_of_lin(l: LinV) -> Seq<char> {
    key_of_terms(l.terms) + num::display(l.constant.n(), l.constant.d())
}

/// One term as a reader would write it.
pub open spec fn rendered_term(name: Seq<char>, c: Rat) -> Seq<char> {
    if c.n() == 1 && c.d() == 1 {
        name
    } else if c.n() == -1 && c.d() == 1 {
        "-"@ + name
    } else {
        num::display(c.n(), c.d()) + "*"@ + name
    }
}

/// The parts of a rendered form: its terms, and its constant unless that is zero and
/// there are terms.
pub open spec fn rendered_parts(l: LinV) -> Seq<Seq<char>> {
    let parts = Seq::new(l.terms.len(), |i: int| rendered_term(l.terms[i].0, l.terms[i].1));
    if l.constant.n() != 0 || l.terms.len() == 0 {
        parts.push(num::display(l.constant.n(), l.constant.d()))
    } else {
        parts
    }
}

/// The text with every `+ -`, from the left, written as `- `.
pub open spec fn tidied(s: Seq<char>) -> Seq<char>
    decreases s.len(),
{
    if s.len() == 0 {
        s
    } else if s.len() >= 3 && s[0] == '+' && s[1] == ' ' && s[2] == '-' {
        seq!['-', ' '] + tidied(s.skip(3))
    } else {
        seq![s[0]] + tidied(s.skip(1))
    }
}

/// A form as a reader would write it.
pub open spec fn rendered_form(l: LinV) -> Seq<char> {
    tidied(text::joined(rendered_parts(l), " + "@))
}

/// Write every `+ -` as `- `.
fn tidy(s: &str) -> (r: String)
    ensures
        r@ == tidied(s@),
{
    let v = chars_of(s);
    let mut out: String = "".to_owned();
    proof {
        reveal_strlit("");
    }
    let mut i: usize = 0;
    assert(s@.skip(0) =~= s@);
    assert(out@ + tidied(s@) =~= tidied(s@));
    while i < v.len()
        invariant
            v@ == s@,
            i <= v@.len(),
            tidied(s@) == out@ + tidied(s@.skip(i as int)),
        decreases v@.len() - i,
    {
        let ghost rest = s@.skip(i as int);
        let ghost before = out@;
        if v.len() - i >= 3 && v[i] == '+' && v[i + 1] == ' ' && v[i + 2] == '-' {
            out.push('-');
            out.push(' ');
            proof {
                assert(rest.skip(3) =~= s@.skip(i + 3));
                assert(before + (seq!['-', ' '] + tidied(rest.skip(3))) =~= out@ + tidied(
                    rest.skip(3),
                ));
            }
            i += 3;
        } else {
            out.push(v[i]);
            proof {
                assert(rest.skip(1) =~= s@.skip(i + 1));
                assert(before + (seq![rest[0]] + tidied(rest.skip(1))) =~= out@ + tidied(
                    rest.skip(1),
                ));
            }
            i += 1;
        }
    }
    assert(s@.skip(i as int) =~= Seq::empty());
    assert(out@ + tidied(s@.skip(i as int)) =~= out@);
    out
}

impl Linear {
    /// A stable textual key, so `x - 1 <= 0` produced twice is one atom.
    pub fn key(&self) -> (r: String)
        ensures
            r@ == key_of_lin(self@),
    {
        let mut out: String = "".to_owned();
        proof {
            reveal_strlit("");
        }
        let ghost a = self.terms@;
        let n = self.terms.len();
        let mut i: usize = 0;
        assert(a.skip(0) =~= a);
        assert(out@ + key_of_terms(a) =~= key_of_terms(a));
        while i < n
            invariant
                a == self.terms@,
                n == a.len(),
                i <= n,
                key_of_terms(a) == out@ + key_of_terms(a.skip(i as int)),
            decreases n - i,
        {
            let ghost before = out@;
            let coeff = self.terms.value_at(i).to_display();
            out.append(coeff.as_str());
            out.append("*");
            out.append(self.terms.name_at(i).as_str());
            out.append("+");
            proof {
                lemma_skip_first(a, i as int);
                let rest = key_of_terms(a.skip(i + 1));
                let (c, x) = (a[i as int].1, a[i as int].0);
                assert(before + (num::display(c.n(), c.d()) + "*"@ + x + "+"@ + rest) =~= out@
                    + rest);
            }
            i += 1;
        }
        assert(a.skip(n as int) =~= Seq::empty());
        assert(out@ + key_of_terms(a.skip(n as int)) =~= out@);
        let k = self.constant.to_display();
        out.append(k.as_str());
        out
    }

    /// Human-readable rendering, used in findings so a counterexample reads like a
    /// sentence rather than a matrix row.
    pub fn render(&self) -> (r: String)
        ensures
            r@ == rendered_form(self@),
    {
        proof {
            use_type_invariant(self);
        }
        let mut parts: Vec<String> = Vec::new();
        let ghost t = self.terms@;
        let n = self.terms.len();
        let mut i: usize = 0;
        while i < n
            invariant
                t == self.terms@,
                n == t.len(),
                i <= n,
                linear::terms_wf(t),
                parts@.len() == i,
                forall|k: int|
                    0 <= k < i ==> (#[trigger] parts@[k])@ == rendered_term(t[k].0, t[k].1),
            decreases n - i,
        {
            let name = self.terms.name_at(i);
            let c = *self.terms.value_at(i);
            assert(t[i as int].1.wf());
            if c.denom() == 1 && c.numer() == 1 {
                parts.push(name.clone());
            } else if c.denom() == 1 && c.numer() == -1 {
                parts.push(cat2("-", name.as_str()));
            } else {
                let k = c.to_display();
                parts.push(cat3(k.as_str(), "*", name.as_str()));
            }
            i += 1;
        }
        proof {
            self.constant.lemma_wf();
        }
        if !self.constant.is_zero() || n == 0 {
            parts.push(self.constant.to_display());
        }
        assert(text::texts(parts@) =~= rendered_parts(self@));
        let line = join(&parts, " + ");
        tidy(line.as_str())
    }
}

/// A formula in the fragment. See the module docs for the normal form.
#[derive(Debug, PartialEq, Eq)]
pub enum Expr {
    Const(bool),
    /// A boolean variable.
    Bool(String),
    /// `var == "value"` for an enum-sorted variable.
    EnumEq(String, String),
    /// `linear <= 0`.
    Le(Linear),
    /// `linear < 0`.
    Lt(Linear),
    Not(Box<Expr>),
    And(Vec<Expr>),
    Or(Vec<Expr>),
}

/// A formula, with names and values as sequences of characters.
#[verifier::ext_equal]
pub enum ExprV {
    Const(bool),
    Bool(Seq<char>),
    EnumEq(Seq<char>, Seq<char>),
    Le(LinV),
    Lt(LinV),
    Not(Box<ExprV>),
    And(Seq<ExprV>),
    Or(Seq<ExprV>),
}

impl Expr {
    /// The formula by its contents.
    pub open spec fn view(&self) -> ExprV
        decreases self,
    {
        match self {
            Expr::Const(b) => ExprV::Const(*b),
            Expr::Bool(name) => ExprV::Bool(name@),
            Expr::EnumEq(name, value) => ExprV::EnumEq(name@, value@),
            Expr::Le(l) => ExprV::Le(l@),
            Expr::Lt(l) => ExprV::Lt(l@),
            Expr::Not(inner) => ExprV::Not(Box::new((*inner).view())),
            Expr::And(items) => ExprV::And(
                Seq::new(
                    items@.len(),
                    |i: int|
                        if 0 <= i < items@.len() {
                            items@[i].view()
                        } else {
                            ExprV::Const(true)
                        },
                ),
            ),
            Expr::Or(items) => ExprV::Or(
                Seq::new(
                    items@.len(),
                    |i: int|
                        if 0 <= i < items@.len() {
                            items@[i].view()
                        } else {
                            ExprV::Const(true)
                        },
                ),
            ),
        }
    }
}

/// Formulas by their contents.
pub open spec fn exprs(v: Seq<Expr>) -> Seq<ExprV> {
    Seq::new(v.len(), |i: int| v[i]@)
}

/// A conjunction or disjunction is viewed item by item.
pub proof fn lemma_view_items(items: Vec<Expr>)
    ensures
        Expr::And(items)@ == ExprV::And(exprs(items@)),
        Expr::Or(items)@ == ExprV::Or(exprs(items@)),
{
    assert(Expr::And(items)@->And_0 =~= exprs(items@));
    assert(Expr::Or(items)@->Or_0 =~= exprs(items@));
}

impl Clone for Expr {
    fn clone(&self) -> (r: Expr)
        ensures
            r@ == self@,
        decreases self,
    {
        match self {
            Expr::Const(b) => Expr::Const(*b),
            Expr::Bool(name) => Expr::Bool(name.clone()),
            Expr::EnumEq(name, value) => Expr::EnumEq(name.clone(), value.clone()),
            Expr::Le(l) => Expr::Le(l.clone()),
            Expr::Lt(l) => Expr::Lt(l.clone()),
            Expr::Not(inner) => {
                let copy: Expr = (&**inner).clone();
                Expr::Not(Box::new(copy))
            },
            Expr::And(items) => {
                let mut out: Vec<Expr> = Vec::new();
                let mut i: usize = 0;
                while i < items.len()
                    invariant
                        i <= items@.len(),
                        out@.len() == i,
                        forall|k: int| 0 <= k < i ==> (#[trigger] out@[k])@ == items@[k]@,
                        *self matches Expr::And(v) && v == items,
                    decreases items@.len() - i,
                {
                    let copy: Expr = items[i].clone();
                    out.push(copy);
                    i += 1;
                }
                proof {
                    lemma_view_items(*items);
                    lemma_view_items(out);
                    assert(exprs(out@) =~= exprs(items@));
                }
                Expr::And(out)
            },
            Expr::Or(items) => {
                let mut out: Vec<Expr> = Vec::new();
                let mut i: usize = 0;
                while i < items.len()
                    invariant
                        i <= items@.len(),
                        out@.len() == i,
                        forall|k: int| 0 <= k < i ==> (#[trigger] out@[k])@ == items@[k]@,
                        *self matches Expr::Or(v) && v == items,
                    decreases items@.len() - i,
                {
                    let copy: Expr = items[i].clone();
                    out.push(copy);
                    i += 1;
                }
                proof {
                    lemma_view_items(*items);
                    lemma_view_items(out);
                    assert(exprs(out@) =~= exprs(items@));
                }
                Expr::Or(out)
            },
        }
    }
}

/// The negation of a formula: constants flip and a double negation collapses.
pub open spec fn negation(e: ExprV) -> ExprV {
    match e {
        ExprV::Const(b) => ExprV::Const(!b),
        ExprV::Not(inner) => *inner,
        _ => ExprV::Not(Box::new(e)),
    }
}

/// The items of a conjunction (`absorbing` is false) or a disjunction (`absorbing` is
/// true), with nested ones spliced in and neutral constants dropped.
pub open spec fn flattened(items: Seq<ExprV>, absorbing: bool) -> Seq<ExprV>
    decreases items.len(),
{
    if items.len() == 0 {
        Seq::empty()
    } else {
        let front = flattened(items.drop_last(), absorbing);
        match items.last() {
            ExprV::Const(b) => if b == absorbing {
                front.push(items.last())
            } else {
                front
            },
            ExprV::And(inner) => if absorbing {
                front.push(items.last())
            } else {
                front + inner
            },
            ExprV::Or(inner) => if absorbing {
                front + inner
            } else {
                front.push(items.last())
            },
            _ => front.push(items.last()),
        }
    }
}

/// The conjunction of formulas.
pub open spec fn conjunction(items: Seq<ExprV>) -> ExprV {
    let flat = flattened(items, false);
    if items.contains(ExprV::Const(false)) {
        ExprV::Const(false)
    } else if flat.len() == 0 {
        ExprV::Const(true)
    } else if flat.len() == 1 {
        flat[0]
    } else {
        ExprV::And(flat)
    }
}

/// The disjunction of formulas.
pub open spec fn disjunction(items: Seq<ExprV>) -> ExprV {
    let flat = flattened(items, true);
    if items.contains(ExprV::Const(true)) {
        ExprV::Const(true)
    } else if flat.len() == 0 {
        ExprV::Const(false)
    } else if flat.len() == 1 {
        flat[0]
    } else {
        ExprV::Or(flat)
    }
}

/// `a -> b` as `!a | b`.
pub open spec fn implication(a: ExprV, b: ExprV) -> ExprV {
    disjunction(seq![negation(a), b])
}

/// `a <-> b` as `(!a | b) & (!b | a)`.
pub open spec fn equivalence(a: ExprV, b: ExprV) -> ExprV {
    conjunction(seq![implication(a, b), implication(b, a)])
}

/// The variables that a formula mentions, in order and with repetitions.
pub open spec fn vars_of(e: ExprV) -> Seq<Seq<char>>
    decreases e,
{
    match e {
        ExprV::Const(_) => Seq::empty(),
        ExprV::Bool(name) => seq![name],
        ExprV::EnumEq(name, _) => seq![name],
        ExprV::Le(l) => keys_of(l.terms),
        ExprV::Lt(l) => keys_of(l.terms),
        ExprV::Not(inner) => vars_of(*inner),
        ExprV::And(items) => vars_of_all(items),
        ExprV::Or(items) => vars_of_all(items),
    }
}

/// The variables that formulas mention.
pub open spec fn vars_of_all(items: Seq<ExprV>) -> Seq<Seq<char>>
    decreases items,
{
    if items.len() == 0 {
        Seq::empty()
    } else {
        vars_of_all(items.drop_last()) + vars_of(items.last())
    }
}

/// The names of the terms.
pub open spec fn keys_of(t: Terms) -> Seq<Seq<char>> {
    Seq::new(t.len(), |i: int| t[i].0)
}

/// An indivisible test. The solver assigns each atom true or false and then asks the
/// theory whether that assignment is consistent.
#[derive(Debug, PartialEq, Eq)]
pub enum Atom {
    Bool(String),
    EnumEq(String, String),
    Le(Linear),
    Lt(Linear),
}

/// An atom by its contents.
#[verifier::ext_equal]
pub enum AtomV {
    Bool(Seq<char>),
    EnumEq(Seq<char>, Seq<char>),
    Le(LinV),
    Lt(LinV),
}

impl View for Atom {
    type V = AtomV;

    open spec fn view(&self) -> AtomV {
        match self {
            Atom::Bool(name) => AtomV::Bool(name@),
            Atom::EnumEq(name, value) => AtomV::EnumEq(name@, value@),
            Atom::Le(l) => AtomV::Le(l@),
            Atom::Lt(l) => AtomV::Lt(l@),
        }
    }
}

impl Clone for Atom {
    fn clone(&self) -> (r: Atom)
        ensures
            r@ == self@,
    {
        match self {
            Atom::Bool(name) => Atom::Bool(name.clone()),
            Atom::EnumEq(name, value) => Atom::EnumEq(name.clone(), value.clone()),
            Atom::Le(l) => Atom::Le(l.clone()),
            Atom::Lt(l) => Atom::Lt(l.clone()),
        }
    }
}

/// Is the linear form of the atom, if it has one, in normal form?
pub open spec fn atom_wf(a: AtomV) -> bool {
    match a {
        AtomV::Le(l) => linear::lin_wf(l),
        AtomV::Lt(l) => linear::lin_wf(l),
        _ => true,
    }
}

/// Atoms by their contents.
pub open spec fn atom_views(v: Seq<Atom>) -> Seq<AtomV> {
    Seq::new(v.len(), |i: int| v[i]@)
}

/// The atoms of a formula, in order and with repetitions.
pub open spec fn atoms_of(e: ExprV) -> Seq<AtomV>
    decreases e,
{
    match e {
        ExprV::Const(_) => Seq::empty(),
        ExprV::Bool(name) => seq![AtomV::Bool(name)],
        ExprV::EnumEq(name, value) => seq![AtomV::EnumEq(name, value)],
        ExprV::Le(l) => seq![AtomV::Le(l)],
        ExprV::Lt(l) => seq![AtomV::Lt(l)],
        ExprV::Not(inner) => atoms_of(*inner),
        ExprV::And(items) => atoms_of_all(items),
        ExprV::Or(items) => atoms_of_all(items),
    }
}

/// The atoms of formulas.
pub open spec fn atoms_of_all(items: Seq<ExprV>) -> Seq<AtomV>
    decreases items,
{
    if items.len() == 0 {
        Seq::empty()
    } else {
        atoms_of_all(items.drop_last()) + atoms_of(items.last())
    }
}

/// The key of an atom.
pub open spec fn key_of_atom(a: AtomV) -> Seq<char> {
    match a {
        AtomV::Bool(name) => "b:"@ + name,
        AtomV::EnumEq(name, value) => "e:"@ + name + "="@ + value,
        AtomV::Le(l) => "le:"@ + key_of_lin(l),
        AtomV::Lt(l) => "lt:"@ + key_of_lin(l),
    }
}

/// Texts that agree and are each cut at the first of a character agree in both parts.
proof fn lemma_cut(a: Seq<char>, x: Seq<char>, b: Seq<char>, y: Seq<char>, c: char)
    requires
        !a.contains(c),
        !b.contains(c),
        a + seq![c] + x == b + seq![c] + y,
    ensures
        a == b,
        x == y,
{
    let (s, t) = (a + seq![c] + x, b + seq![c] + y);
    let (m, n) = (a.len() as int, b.len() as int);
    assert(s[m] == c && t[n] == c);
    if m < n {
        assert(t[m] == b[m]);
        assert(b.contains(b[m]));
    }
    if n < m {
        assert(s[n] == a[n]);
        assert(a.contains(a[n]));
    }
    assert(a =~= s.take(m));
    assert(b =~= t.take(n));
    assert(x =~= s.skip(m + 1));
    assert(y =~= t.skip(n + 1));
}

/// Do the names hold no plus sign?
pub open spec fn names_without_plus(t: Terms) -> bool {
    forall|i: int| 0 <= i < t.len() ==> !(#[trigger] t[i]).0.contains('+')
}

proof fn lemma_number_free(r: Rat)
    requires
        r.wf(),
    ensures
        !num::display(r.n(), r.d()).contains('*'),
        !num::display(r.n(), r.d()).contains('+'),
{
    reading::lemma_display_shape(r);
    let s = num::display(r.n(), r.d());
    if s.contains('*') {
        assert(reading::number_char(s[s.index_of('*')]));
    }
    if s.contains('+') {
        assert(reading::number_char(s[s.index_of('+')]));
    }
}

/// The key of terms and a constant, cut behind the first coefficient and behind the first
/// name.
proof fn lemma_key_parts(t: Terms, end: Seq<char>)
    requires
        t.len() > 0,
    ensures
        key_of_terms(t) + end == num::display(t[0].1.n(), t[0].1.d()) + seq!['*'] + (t[0].0
            + seq!['+'] + (key_of_terms(t.drop_first()) + end)),
{
    reveal_strlit("*");
    reveal_strlit("+");
    let c = num::display(t[0].1.n(), t[0].1.d());
    let rest = key_of_terms(t.drop_first());
    assert(c + "*"@ + t[0].0 + "+"@ + rest + end =~= c + seq!['*'] + (t[0].0 + seq!['+'] + (rest
        + end)));
}

proof fn lemma_terms_identified(a: Terms, x: Rat, b: Terms, y: Rat)
    requires
        forall|i: int| 0 <= i < a.len() ==> (#[trigger] a[i]).1.wf(),
        forall|i: int| 0 <= i < b.len() ==> (#[trigger] b[i]).1.wf(),
        x.wf(),
        y.wf(),
        names_without_plus(a),
        names_without_plus(b),
        key_of_terms(a) + num::display(x.n(), x.d()) == key_of_terms(b) + num::display(
            y.n(),
            y.d(),
        ),
    ensures
        a == b,
        x == y,
    decreases a.len(),
{
    let (u, v) = (num::display(x.n(), x.d()), num::display(y.n(), y.d()));
    lemma_number_free(x);
    lemma_number_free(y);
    if a.len() > 0 {
        lemma_key_parts(a, u);
        lemma_number_free(a[0].1);
    }
    if b.len() > 0 {
        lemma_key_parts(b, v);
        lemma_number_free(b[0].1);
    }
    if a.len() == 0 && b.len() == 0 {
        assert(key_of_terms(a) + u =~= u);
        assert(key_of_terms(b) + v =~= v);
        reading::lemma_display_identifies(x, y);
        assert(a =~= b);
    } else if a.len() == 0 {
        assert(key_of_terms(a) + u =~= u);
        let c = num::display(b[0].1.n(), b[0].1.d());
        assert(u[c.len() as int] == '*');
        assert(u.contains('*'));
    } else if b.len() == 0 {
        assert(key_of_terms(b) + v =~= v);
        let c = num::display(a[0].1.n(), a[0].1.d());
        assert(v[c.len() as int] == '*');
        assert(v.contains('*'));
    } else {
        let (p, q) = (a.drop_first(), b.drop_first());
        let (c, d) = (
            num::display(a[0].1.n(), a[0].1.d()),
            num::display(b[0].1.n(), b[0].1.d()),
        );
        let (r, s) = (key_of_terms(p) + u, key_of_terms(q) + v);
        lemma_cut(c, a[0].0 + seq!['+'] + r, d, b[0].0 + seq!['+'] + s, '*');
        lemma_cut(a[0].0, r, b[0].0, s, '+');
        reading::lemma_display_identifies(a[0].1, b[0].1);
        assert forall|i: int| 0 <= i < p.len() implies (#[trigger] p[i]).1.wf() && !p[i].0.contains(
            '+',
        ) by {
            assert(p[i] == a[i + 1]);
        }
        assert forall|i: int| 0 <= i < q.len() implies (#[trigger] q[i]).1.wf() && !q[i].0.contains(
            '+',
        ) by {
            assert(q[i] == b[i + 1]);
        }
        lemma_terms_identified(p, x, q, y);
        assert(a[0] == b[0]);
        assert(a =~= seq![a[0]] + p);
        assert(b =~= seq![b[0]] + q);
    }
}

/// Keys identify linear forms: forms over names without a plus sign have the same key
/// exactly where they are the same form.
pub proof fn lemma_form_key(a: LinV, b: LinV)
    requires
        linear::lin_wf(a),
        linear::lin_wf(b),
        names_without_plus(a.terms),
        names_without_plus(b.terms),
    ensures
        key_of_lin(a) == key_of_lin(b) <==> a == b,
{
    if key_of_lin(a) == key_of_lin(b) {
        lemma_terms_identified(a.terms, a.constant, b.terms, b.constant);
    }
}

/// Can the names of the atom be told apart from what its key puts around them?
pub open spec fn plainly_named(a: AtomV) -> bool {
    match a {
        AtomV::Bool(_) => true,
        AtomV::EnumEq(name, _) => !name.contains('='),
        AtomV::Le(l) => names_without_plus(l.terms),
        AtomV::Lt(l) => names_without_plus(l.terms),
    }
}

/// Keys identify atoms: atoms whose tested enums have names without an equals sign, and
/// whose forms have names without a plus sign, have the same key exactly where they are
/// the same atom.
pub proof fn lemma_atom_key(a: AtomV, b: AtomV)
    requires
        atom_wf(a),
        atom_wf(b),
        plainly_named(a),
        plainly_named(b),
    ensures
        key_of_atom(a) == key_of_atom(b) <==> a == b,
{
    reveal_strlit("b:");
    reveal_strlit("e:");
    reveal_strlit("le:");
    reveal_strlit("lt:");
    reveal_strlit("=");
    let (s, t) = (key_of_atom(a), key_of_atom(b));
    if s == t {
        assert(s[0] == t[0] && s[1] == t[1]);
        match (a, b) {
            (AtomV::Bool(x), AtomV::Bool(y)) => {
                assert(x =~= s.skip(2));
                assert(y =~= t.skip(2));
            },
            (AtomV::EnumEq(x, v), AtomV::EnumEq(y, w)) => {
                assert(s.skip(2) =~= x + seq!['='] + v);
                assert(t.skip(2) =~= y + seq!['='] + w);
                lemma_cut(x, v, y, w, '=');
            },
            (AtomV::Le(l), AtomV::Le(m)) => {
                assert(key_of_lin(l) =~= s.skip(3));
                assert(key_of_lin(m) =~= t.skip(3));
                lemma_form_key(l, m);
            },
            (AtomV::Lt(l), AtomV::Lt(m)) => {
                assert(key_of_lin(l) =~= s.skip(3));
                assert(key_of_lin(m) =~= t.skip(3));
                lemma_form_key(l, m);
            },
            _ => {},
        }
    }
}

impl Atom {
    /// A textual identity.
    pub fn key(&self) -> (r: String)
        ensures
            r@ == key_of_atom(self@),
    {
        match self {
            Atom::Bool(name) => cat2("b:", name.as_str()),
            Atom::EnumEq(name, value) => cat4("e:", name.as_str(), "=", value.as_str()),
            Atom::Le(l) => {
                let k = l.key();
                cat2("le:", k.as_str())
            },
            Atom::Lt(l) => {
                let k = l.key();
                cat2("lt:", k.as_str())
            },
        }
    }
}

impl Expr {
    /// The negation.
    pub fn not(self) -> (r: Expr)
        ensures
            r@ == negation(self@),
    {
        match self {
            Expr::Const(b) => Expr::Const(!b),
            Expr::Not(inner) => *inner,
            other => Expr::Not(Box::new(other)),
        }
    }

    /// The conjunction, with nested conjunctions spliced in and constants absorbed.
    pub fn and(items: Vec<Expr>) -> (r: Expr)
        ensures
            r@ == conjunction(exprs(items@)),
    {
        let ghost all = exprs(items@);
        let mut rest = items;
        let mut flat: Vec<Expr> = Vec::new();
        let n = rest.len();
        let mut i: usize = 0;
        while i < n
            invariant
                n == rest@.len(),
                n == all.len(),
                all == exprs(items@),
                i <= n,
                forall|k: int| i <= k < n ==> (#[trigger] rest@[k])@ == all[k],
                forall|k: int| 0 <= k < i ==> all[k] != ExprV::Const(false),
                exprs(flat@) == flattened(all.take(i as int), false),
            decreases n - i,
        {
            let mut item = Expr::Const(true);
            std::mem::swap(&mut item, &mut rest[i]);
            proof {
                assert(all.take(i + 1).drop_last() =~= all.take(i as int));
                assert(all.take(i + 1).last() == all[i as int]);
                assert(item@ == all[i as int]);
            }
            let ghost before = exprs(flat@);
            match item {
                Expr::Const(true) => {},
                Expr::Const(false) => {
                    assert(all[i as int] == ExprV::Const(false));
                    return Expr::Const(false);
                },
                Expr::And(inner) => {
                    proof {
                        lemma_view_items(inner);
                    }
                    let ghost added = inner@;
                    let mut inner = inner;
                    let ghost old_flat = flat@;
                    flat.append(&mut inner);
                    assert(flat@ == old_flat + added);
                    assert(exprs(flat@) =~= before + exprs(added));
                },
                other => {
                    flat.push(other);
                    assert(exprs(flat@) =~= before.push(other@));
                },
            }
            i += 1;
        }
        proof {
            assert(all.take(n as int) =~= all);
            assert(!all.contains(ExprV::Const(false)));
            lemma_view_items(flat);
        }
        if flat.len() == 0 {
            Expr::Const(true)
        } else if flat.len() == 1 {
            assert(exprs(flat@)[0] == flat@[0]@);
            match flat.pop() {
                Some(only) => only,
                None => Expr::Const(true),
            }
        } else {
            Expr::And(flat)
        }
    }

    /// The disjunction, with nested disjunctions spliced in and constants absorbed.
    pub fn or(items: Vec<Expr>) -> (r: Expr)
        ensures
            r@ == disjunction(exprs(items@)),
    {
        let ghost all = exprs(items@);
        let mut rest = items;
        let mut flat: Vec<Expr> = Vec::new();
        let n = rest.len();
        let mut i: usize = 0;
        while i < n
            invariant
                n == rest@.len(),
                n == all.len(),
                all == exprs(items@),
                i <= n,
                forall|k: int| i <= k < n ==> (#[trigger] rest@[k])@ == all[k],
                forall|k: int| 0 <= k < i ==> all[k] != ExprV::Const(true),
                exprs(flat@) == flattened(all.take(i as int), true),
            decreases n - i,
        {
            let mut item = Expr::Const(false);
            std::mem::swap(&mut item, &mut rest[i]);
            proof {
                assert(all.take(i + 1).drop_last() =~= all.take(i as int));
                assert(all.take(i + 1).last() == all[i as int]);
                assert(item@ == all[i as int]);
            }
            let ghost before = exprs(flat@);
            match item {
                Expr::Const(false) => {},
                Expr::Const(true) => {
                    assert(all[i as int] == ExprV::Const(true));
                    return Expr::Const(true);
                },
                Expr::Or(inner) => {
                    proof {
                        lemma_view_items(inner);
                    }
                    let ghost added = inner@;
                    let mut inner = inner;
                    let ghost old_flat = flat@;
                    flat.append(&mut inner);
                    assert(flat@ == old_flat + added);
                    assert(exprs(flat@) =~= before + exprs(added));
                },
                other => {
                    flat.push(other);
                    assert(exprs(flat@) =~= before.push(other@));
                },
            }
            i += 1;
        }
        proof {
            assert(all.take(n as int) =~= all);
            assert(!all.contains(ExprV::Const(true)));
            lemma_view_items(flat);
        }
        if flat.len() == 0 {
            Expr::Const(false)
        } else if flat.len() == 1 {
            assert(exprs(flat@)[0] == flat@[0]@);
            match flat.pop() {
                Some(only) => only,
                None => Expr::Const(false),
            }
        } else {
            Expr::Or(flat)
        }
    }

    /// `self -> other`.
    pub fn implies(self, other: Expr) -> (r: Expr)
        ensures
            r@ == implication(self@, other@),
    {
        let ghost parts = seq![negation(self@), other@];
        let mut items: Vec<Expr> = Vec::new();
        items.push(self.not());
        items.push(other);
        assert(exprs(items@) =~= parts);
        Expr::or(items)
    }

    /// `self <-> other`.
    pub fn iff(self, other: Expr) -> (r: Expr)
        ensures
            r@ == equivalence(self@, other@),
    {
        let ghost parts = seq![implication(self@, other@), implication(other@, self@)];
        let forth = self.clone().implies(other.clone());
        let back = other.implies(self);
        let mut items: Vec<Expr> = Vec::new();
        items.push(forth);
        items.push(back);
        assert(exprs(items@) =~= parts);
        Expr::and(items)
    }

    /// Every variable mentioned anywhere in the formula.
    pub fn vars(&self, out: &mut Vec<String>)
        ensures
            text::texts(final(out)@) == text::texts(old(out)@) + vars_of(self@),
        decreases self,
    {
        let ghost before = text::texts(out@);
        match self {
            Expr::Const(_) => {
                assert(text::texts(out@) =~= before + vars_of(self@));
            },
            Expr::Bool(name) | Expr::EnumEq(name, _) => {
                out.push(name.clone());
                assert(text::texts(out@) =~= before + seq![name@]);
            },
            Expr::Le(l) | Expr::Lt(l) => {
                let n = l.terms.len();
                let mut i: usize = 0;
                assert(text::texts(out@) =~= before + keys_of(l@.terms).take(0));
                while i < n
                    invariant
                        n == l@.terms.len(),
                        l@.terms == l.terms@,
                        i <= n,
                        text::texts(out@) == before + keys_of(l@.terms).take(i as int),
                    decreases n - i,
                {
                    let ghost so_far = out@;
                    out.push(l.terms.name_at(i).clone());
                    proof {
                        let keys = keys_of(l@.terms);
                        assert(text::texts(out@) =~= text::texts(so_far).push(keys[i as int]));
                        assert(keys.take(i + 1) =~= keys.take(i as int).push(keys[i as int]));
                        assert(before + keys.take(i + 1) =~= (before + keys.take(i as int)).push(
                            keys[i as int],
                        ));
                    }
                    i += 1;
                }
                assert(keys_of(l@.terms).take(n as int) =~= keys_of(l@.terms));
            },
            Expr::Not(inner) => {
                inner.vars(out);
            },
            Expr::And(items) | Expr::Or(items) => {
                let ghost all = exprs(items@);
                proof {
                    lemma_view_items(*items);
                }
                let mut i: usize = 0;
                assert(text::texts(out@) =~= before + vars_of_all(all.take(0)));
                while i < items.len()
                    invariant
                        i <= items@.len(),
                        all == exprs(items@),
                        text::texts(out@) == before + vars_of_all(all.take(i as int)),
                        (*self matches Expr::And(v) && v == items) || (*self matches Expr::Or(v)
                            && v == items),
                    decreases items@.len() - i,
                {
                    proof {
                        assert(all.take(i + 1).drop_last() =~= all.take(i as int));
                    }
                    items[i].vars(out);
                    i += 1;
                    assert(text::texts(out@) =~= before + vars_of_all(all.take(i as int)));
                }
                assert(all.take(i as int) =~= all);
            },
        }
    }

    /// Collect the atoms (the leaves the solver case-splits on).
    pub fn atoms(&self, out: &mut Vec<Atom>)
        ensures
            atom_views(final(out)@) == atom_views(old(out)@) + atoms_of(self@),
            forall|k: int|
                old(out)@.len() <= k < final(out)@.len() ==> atom_wf(
                    (#[trigger] atom_views(final(out)@)[k]),
                ),
        decreases self,
    {
        let ghost before = atom_views(out@);
        match self {
            Expr::Const(_) => {
                assert(atom_views(out@) =~= before + atoms_of(self@));
            },
            Expr::Bool(name) => {
                out.push(Atom::Bool(name.clone()));
                assert(atom_views(out@) =~= before + atoms_of(self@));
            },
            Expr::EnumEq(name, value) => {
                out.push(Atom::EnumEq(name.clone(), value.clone()));
                assert(atom_views(out@) =~= before + atoms_of(self@));
            },
            Expr::Le(l) => {
                out.push(Atom::Le(l.clone()));
                assert(atom_views(out@) =~= before + atoms_of(self@));
            },
            Expr::Lt(l) => {
                out.push(Atom::Lt(l.clone()));
                assert(atom_views(out@) =~= before + atoms_of(self@));
            },
            Expr::Not(inner) => {
                inner.atoms(out);
            },
            Expr::And(items) | Expr::Or(items) => {
                let ghost all = exprs(items@);
                proof {
                    lemma_view_items(*items);
                }
                let mut i: usize = 0;
                assert(atom_views(out@) =~= before + atoms_of_all(all.take(0)));
                while i < items.len()
                    invariant
                        i <= items@.len(),
                        all == exprs(items@),
                        atom_views(out@) == before + atoms_of_all(all.take(i as int)),
                        before.len() <= out@.len(),
                        forall|k: int|
                            before.len() <= k < out@.len() ==> atom_wf(
                                (#[trigger] atom_views(out@)[k]),
                            ),
                        (*self matches Expr::And(v) && v == items) || (*self matches Expr::Or(v)
                            && v == items),
                    decreases items@.len() - i,
                {
                    proof {
                        assert(all.take(i + 1).drop_last() =~= all.take(i as int));
                    }
                    items[i].atoms(out);
                    i += 1;
                    assert(atom_views(out@) =~= before + atoms_of_all(all.take(i as int)));
                }
                assert(all.take(i as int) =~= all);
            },
        }
    }
}

impl Linear {
    /// Are the two forms the same?
    pub fn same_form(&self, other: &Linear) -> (b: bool)
        ensures
            b == (self@ == other@),
    {
        if self.constant != other.constant || self.terms.len() != other.terms.len() {
            return false;
        }
        let n = self.terms.len();
        let mut i: usize = 0;
        while i < n
            invariant
                n == self.terms@.len(),
                n == other.terms@.len(),
                i <= n,
                forall|k: int| 0 <= k < i ==> (#[trigger] self.terms@[k]) == other.terms@[k],
            decreases n - i,
        {
            if !same(self.terms.name_at(i).as_str(), other.terms.name_at(i).as_str())
                || *self.terms.value_at(i) != *other.terms.value_at(i) {
                assert(self.terms@[i as int] != other.terms@[i as int]);
                return false;
            }
            i += 1;
        }
        assert(self.terms@ =~= other.terms@);
        true
    }
}

impl Atom {
    /// Are the two atoms the same test?
    pub fn same_atom(&self, other: &Atom) -> (b: bool)
        ensures
            b == (self@ == other@),
    {
        match (self, other) {
            (Atom::Bool(a), Atom::Bool(b)) => same(a.as_str(), b.as_str()),
            (Atom::EnumEq(a, v), Atom::EnumEq(b, w)) => {
                same(a.as_str(), b.as_str()) && same(v.as_str(), w.as_str())
            },
            (Atom::Le(a), Atom::Le(b)) => a.same_form(b),
            (Atom::Lt(a), Atom::Lt(b)) => a.same_form(b),
            _ => false,
        }
    }
}

/// The atom that a formula is, if it is one.
pub open spec fn leaf(e: ExprV) -> Option<AtomV> {
    match e {
        ExprV::Bool(name) => Some(AtomV::Bool(name)),
        ExprV::EnumEq(name, value) => Some(AtomV::EnumEq(name, value)),
        ExprV::Le(l) => Some(AtomV::Le(l)),
        ExprV::Lt(l) => Some(AtomV::Lt(l)),
        _ => None,
    }
}

impl Expr {
    /// Is the formula that atom?
    pub fn is_atom(&self, atom: &Atom) -> (b: bool)
        ensures
            b == (leaf(self@) == Some(atom@)),
    {
        match (self, atom) {
            (Expr::Bool(a), Atom::Bool(b)) => same(a.as_str(), b.as_str()),
            (Expr::EnumEq(a, v), Atom::EnumEq(b, w)) => {
                same(a.as_str(), b.as_str()) && same(v.as_str(), w.as_str())
            },
            (Expr::Le(a), Atom::Le(b)) => a.same_form(b),
            (Expr::Lt(a), Atom::Lt(b)) => a.same_form(b),
            _ => false,
        }
    }
}

} // verus!
