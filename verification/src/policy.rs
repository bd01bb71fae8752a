//! The policy document: what an author edits, and what it compiles to.
//!
//! A policy is a set of **declared variables** and a set of **rules**, each rule
//! carrying both a natural-language `statement` (what the author reads) and a DSL
//! `expression` (what the solver reads). Keeping both is deliberate: the sentence is
//! what a finding quotes back to a user, and the expression is what makes the finding
//! true. Editing one without the other is the failure mode, so
//! [`CompiledPolicy::compile`] reports a rule whose expression does not parse instead
//! of quietly dropping it.
//!
//! Beyond compiling, this module can interrogate a policy on its own terms —
//! [`analyze`] answers two questions no test suite catches:
//!
//! * **Is it consistent?** If the rules contradict each other, every check against
//!   the policy degrades to `impossible`. The analysis names rules that conflict,
//!   none of which can be left out, rather than the whole file.
//! * **Is any rule redundant?** A rule already implied by the others adds nothing.

use vstd::prelude::*;

use crate::decision;
use crate::decision::{Limits, OutcomeV};
use crate::grammar;
use crate::lexer::ErrV;
use crate::lists;
use crate::logic;
use crate::logic::{AtomV, Expr, ExprV, Variable};
use crate::names;
use crate::parser::parse;
use crate::semantics;
use crate::semantics::Sorts;
use crate::solver;
use crate::solver::{Budget, Env, Outcome};
use crate::soundness;
use crate::text;
use crate::text::{blank, holds_text};
use crate::verdict;
use crate::verdict::{
    ask, base_formulas, minimal_core, Constraint, ConstraintV, Origin, Verdict,
};

verus! {

/// One rule of a policy.
#[derive(Debug, PartialEq, Eq)]
pub struct Rule {
    pub id: String,
    /// The rule as prose. This is what findings quote.
    pub statement: String,
    /// The rule in the DSL ([`crate::parser`]).
    pub expression: String,
    pub enabled: bool,
}

/// A rule by its contents.
#[verifier::ext_equal]
pub struct RuleV {
    pub id: Seq<char>,
    pub statement: Seq<char>,
    pub expression: Seq<char>,
    pub enabled: bool,
}

impl View for Rule {
    type V = RuleV;

    open spec fn view(&self) -> RuleV {
        RuleV {
            id: self.id@,
            statement: self.statement@,
            expression: self.expression@,
            enabled: self.enabled,
        }
    }
}

impl Clone for Rule {
    fn clone(&self) -> (r: Rule)
        ensures
            r@ == self@,
    {
        Rule {
            id: self.id.clone(),
            statement: self.statement.clone(),
            expression: self.expression.clone(),
            enabled: self.enabled,
        }
    }
}

/// Rules by their contents.
pub open spec fn rule_views(v: Seq<Rule>) -> Seq<RuleV> {
    Seq::new(v.len(), |i: int| v[i]@)
}

/// A saved question/answer pair with the verdict the author expects — the regression
/// test for a policy. Editing a rule to fix one case routinely breaks another; this
/// is what catches that.
#[derive(Debug)]
pub struct TestCase {
    pub id: String,
    pub question: String,
    pub answer: String,
    pub expected: Verdict,
    pub note: String,
}

impl Clone for TestCase {
    fn clone(&self) -> (r: TestCase)
        ensures
            r.id@ == self.id@,
            r.question@ == self.question@,
            r.answer@ == self.answer@,
            r.expected == self.expected,
            r.note@ == self.note@,
    {
        TestCase {
            id: self.id.clone(),
            question: self.question.clone(),
            answer: self.answer.clone(),
            expected: self.expected,
            note: self.note.clone(),
        }
    }
}

/// A stored policy.
#[derive(Debug)]
pub struct Policy {
    pub id: String,
    pub name: String,
    pub description: String,
    /// Bumped on every save, so a check can record which revision judged it.
    pub version: u32,
    pub variables: Vec<Variable>,
    pub rules: Vec<Rule>,
    pub tests: Vec<TestCase>,
    /// The document the policy was drafted from, kept so an author can re-read the
    /// source of a rule they no longer recognise.
    pub source_document: Option<String>,
    pub created_at: String,
    pub updated_at: String,
}

/// Are these the sorts of the declared variables?
pub open spec fn is_env(vars: Seq<Variable>, env: Sorts) -> bool {
    &&& names::ordered(env)
    &&& forall|x: Seq<char>| #[trigger]
        names::lookup(env, x) == solver::declared(solver::variables(vars), x)
}

/// The declared variables have one reading.
pub proof fn lemma_one_env(vars: Seq<Variable>, a: Sorts, b: Sorts)
    requires
        is_env(vars, a),
        is_env(vars, b),
    ensures
        a == b,
{
    assert forall|x: Seq<char>| #[trigger] names::lookup(a, x) == names::lookup(b, x) by {
        assert(names::lookup(b, x) == solver::declared(solver::variables(vars), x));
    }
    names::lemma_same_entries(a, b);
}

impl Policy {
    /// The sorts of the declared variables.
    pub fn env(&self) -> (r: Env)
        ensures
            is_env(self.variables@, r@),
    {
        Env::from_variables(self.variables.as_slice())
    }
}

/// A rule that did not compile, reported with the parser's message so the author can
/// fix it in place.
#[derive(Debug, PartialEq, Eq)]
pub struct RuleError {
    pub rule_id: String,
    pub expression: String,
    pub message: String,
    pub position: usize,
}

/// A rule that did not compile, by its contents.
#[verifier::ext_equal]
pub struct RuleErrV {
    pub rule_id: Seq<char>,
    pub expression: Seq<char>,
    pub error: ErrV,
}

impl View for RuleError {
    type V = RuleErrV;

    open spec fn view(&self) -> RuleErrV {
        RuleErrV {
            rule_id: self.rule_id@,
            expression: self.expression@,
            error: ErrV { message: self.message@, position: self.position as nat },
        }
    }
}

impl Clone for RuleError {
    fn clone(&self) -> (r: RuleError)
        ensures
            r@ == self@,
    {
        RuleError {
            rule_id: self.rule_id.clone(),
            expression: self.expression.clone(),
            message: self.message.clone(),
            position: self.position,
        }
    }
}

/// Errors by their contents.
pub open spec fn error_views(v: Seq<RuleError>) -> Seq<RuleErrV> {
    Seq::new(v.len(), |i: int| v[i]@)
}

/// A rule as a constraint; its prose is its expression where the author wrote none.
pub open spec fn rule_constraint(rule: RuleV, expr: ExprV) -> ConstraintV {
    ConstraintV {
        id: rule.id,
        statement: if text::trimmed(rule.statement).len() == 0 {
            rule.expression
        } else {
            rule.statement
        },
        expression: rule.expression,
        expr,
        origin: Origin::Rule,
    }
}

/// The enabled rules that parse, as constraints.
pub open spec fn compiled(rules: Seq<RuleV>, env: Sorts) -> Seq<ConstraintV>
    decreases rules.len(),
{
    if rules.len() == 0 {
        Seq::empty()
    } else {
        let front = compiled(rules.drop_last(), env);
        let rule = rules.last();
        match grammar::parsed(rule.expression, env) {
            Ok(e) => if rule.enabled {
                front.push(rule_constraint(rule, e))
            } else {
                front
            },
            Err(_) => front,
        }
    }
}

/// The enabled rules that do not parse, with the errors.
pub open spec fn rejected(rules: Seq<RuleV>, env: Sorts) -> Seq<RuleErrV>
    decreases rules.len(),
{
    if rules.len() == 0 {
        Seq::empty()
    } else {
        let front = rejected(rules.drop_last(), env);
        let rule = rules.last();
        match grammar::parsed(rule.expression, env) {
            Ok(_) => front,
            Err(error) => if rule.enabled {
                front.push(RuleErrV { rule_id: rule.id, expression: rule.expression, error })
            } else {
                front
            },
        }
    }
}

/// How many rules are enabled.
pub open spec fn enabled_count(rules: Seq<RuleV>) -> nat
    decreases rules.len(),
{
    if rules.len() == 0 {
        0
    } else {
        enabled_count(rules.drop_last()) + if rules.last().enabled {
            1nat
        } else {
            0nat
        }
    }
}

/// No rule is dropped: every enabled rule is compiled or reported.
pub proof fn lemma_no_rule_dropped(rules: Seq<RuleV>, env: Sorts)
    ensures
        compiled(rules, env).len() + rejected(rules, env).len() == enabled_count(rules),
    decreases rules.len(),
{
    if rules.len() > 0 {
        lemma_no_rule_dropped(rules.drop_last(), env);
    }
}

/// A policy turned into something the solver can use.
pub struct CompiledPolicy {
    pub env: Env,
    pub constraints: Vec<Constraint>,
    pub errors: Vec<RuleError>,
}

impl CompiledPolicy {
    /// Compile the enabled rules.
    pub fn compile(policy: &Policy) -> (r: CompiledPolicy)
        ensures
            is_env(policy.variables@, r.env@),
            verdict::constraint_views(r.constraints@) == compiled(
                rule_views(policy.rules@),
                r.env@,
            ),
            error_views(r.errors@) == rejected(rule_views(policy.rules@), r.env@),
            forall|k: int|
                0 <= k < r.constraints@.len() ==> grammar::lawful(
                    r.env@,
                    (#[trigger] r.constraints@[k]).expr@,
                ),
    {
        let env = policy.env();
        let ghost rules = rule_views(policy.rules@);
        let mut constraints: Vec<Constraint> = Vec::new();
        let mut errors: Vec<RuleError> = Vec::new();
        let mut i: usize = 0;
        assert(verdict::constraint_views(constraints@) =~= Seq::empty());
        assert(error_views(errors@) =~= Seq::empty());
        while i < policy.rules.len()
            invariant
                i <= policy.rules@.len(),
                rules == rule_views(policy.rules@),
                verdict::constraint_views(constraints@) == compiled(rules.take(i as int), env@),
                error_views(errors@) == rejected(rules.take(i as int), env@),
                forall|k: int|
                    0 <= k < constraints@.len() ==> grammar::lawful(
                        env@,
                        (#[trigger] constraints@[k]).expr@,
                    ),
            decreases policy.rules@.len() - i,
        {
            proof {
                assert(rules.take(i + 1).drop_last() =~= rules.take(i as int));
                assert(rules.take(i + 1).last() == rules[i as int]);
            }
            let ghost (c0, e0) = (constraints@, errors@);
            let rule = &policy.rules[i];
            if rule.enabled {
                match parse(rule.expression.as_str(), &env) {
                    Ok(expr) => {
                        let ghost parsed = expr@;
                        let statement = if blank(rule.statement.as_str()) {
                            rule.expression.clone()
                        } else {
                            rule.statement.clone()
                        };
                        constraints.push(
                            Constraint {
                                id: rule.id.clone(),
                                statement,
                                expression: rule.expression.clone(),
                                expr,
                                origin: Origin::Rule,
                            },
                        );
                        assert(verdict::constraint_views(constraints@)
                            =~= verdict::constraint_views(c0).push(
                            rule_constraint(rule@, parsed),
                        ));
                    },
                    Err(e) => {
                        let ghost error = e@;
                        errors.push(
                            RuleError {
                                rule_id: rule.id.clone(),
                                expression: rule.expression.clone(),
                                message: e.message,
                                position: e.position,
                            },
                        );
                        assert(error_views(errors@) =~= error_views(e0).push(
                            RuleErrV {
                                rule_id: rule.id@,
                                expression: rule.expression@,
                                error,
                            },
                        ));
                    },
                }
            }
            i += 1;
        }
        assert(rules.take(i as int) =~= rules);
        CompiledPolicy { env, constraints, errors }
    }
}

/// What [`analyze`] found.
#[derive(Debug)]
pub struct PolicyAnalysis {
    /// `true` when the rules can all hold at once.
    pub consistent: bool,
    /// When inconsistent: rules that conflict, none of which can be left out.
    pub conflicting_rules: Vec<String>,
    /// Rules already implied by the others.
    pub redundant_rules: Vec<String>,
    /// Rules that did not compile.
    pub errors: Vec<RuleError>,
    /// Declared but never used in any rule — usually a typo, or a variable the author
    /// meant to constrain and did not.
    pub unused_variables: Vec<String>,
    /// Set when a budget ran out, so the report is not read as "all clear".
    pub incomplete: Option<String>,
}

/// The declared names that do not occur among the used ones.
pub open spec fn unused(vars: Seq<Variable>, used: Seq<Seq<char>>) -> Seq<Seq<char>>
    decreases vars.len(),
{
    if vars.len() == 0 {
        Seq::empty()
    } else if used.contains(vars.last().name@) {
        unused(vars.drop_last(), used)
    } else {
        unused(vars.drop_last(), used).push(vars.last().name@)
    }
}

/// The question whether the rule at `i` follows from the others.
pub open spec fn without_rule(cs: Seq<ConstraintV>, i: int) -> Seq<ExprV> {
    verdict::formulas(cs.remove(i)).push(logic::negation(cs[i].expr))
}

/// The ids of the rules, up to `n`, whose question was answered with `Unsat`.
pub open spec fn redundant(cs: Seq<ConstraintV>, answers: Seq<OutcomeV>, n: int) -> Seq<Seq<char>>
    decreases n,
{
    if n <= 0 {
        Seq::empty()
    } else if answers[n - 1] is Unsat {
        redundant(cs, answers, n - 1).push(cs[n - 1].id)
    } else {
        redundant(cs, answers, n - 1)
    }
}

/// The first reason, up to `n`, why a question was left open.
pub open spec fn left_open(answers: Seq<OutcomeV>, n: int) -> Option<Seq<char>>
    decreases n,
{
    if n <= 0 {
        None
    } else {
        match left_open(answers, n - 1) {
            Some(why) => Some(why),
            None => match answers[n - 1] {
                OutcomeV::Unknown(why) => Some(why),
                _ => None,
            },
        }
    }
}

/// The ids of constraints.
pub open spec fn ids(cs: Seq<ConstraintV>) -> Seq<Seq<char>> {
    Seq::new(cs.len(), |i: int| cs[i].id)
}

/// Were the questions of redundancy answered like that?
pub open spec fn probed(
    exact: bool,
    env: Sorts,
    lim: Limits,
    cs: Seq<ConstraintV>,
    answers: Seq<OutcomeV>,
) -> bool {
    answers.len() <= cs.len() && forall|i: int|
        0 <= i < answers.len() ==> verdict::asked(
            exact,
            env,
            lim,
            without_rule(cs, i),
            #[trigger] answers[i],
        )
}

/// Are these the ids of a core of contradictory rules?
pub open spec fn conflict(
    exact: bool,
    env: Sorts,
    lim: Limits,
    cs: Seq<ConstraintV>,
    named: Seq<Seq<char>>,
) -> bool {
    exists|core: Seq<ConstraintV>| #[trigger]
        verdict::reduces_to(exact, env, lim, cs, 0, Seq::empty(), core) && named == ids(core)
}

/// Is that the analysis of the rules?
pub open spec fn analyzed(
    exact: bool,
    env: Sorts,
    lim: Limits,
    cs: Seq<ConstraintV>,
    out: PolicyAnalysis,
) -> bool {
    exists|o: OutcomeV| #[trigger]
        verdict::asked(exact, env, lim, verdict::formulas(cs), o) && match o {
            OutcomeV::Unsat => {
                &&& !out.consistent
                &&& out.redundant_rules@.len() == 0
                &&& out.incomplete is None
                &&& conflict(exact, env, lim, cs, text::texts(out.conflicting_rules@))
            },
            OutcomeV::Unknown(why) => {
                &&& out.consistent
                &&& out.conflicting_rules@.len() == 0
                &&& out.redundant_rules@.len() == 0
                &&& text::option_text(out.incomplete) == Some(why)
            },
            OutcomeV::Sat(_) => {
                &&& out.consistent
                &&& out.conflicting_rules@.len() == 0
                &&& exists|answers: Seq<OutcomeV>| #[trigger]
                    probed(exact, env, lim, cs, answers) && answers.len() == cs.len()
                        && text::texts(out.redundant_rules@) == redundant(
                        cs,
                        answers,
                        cs.len() as int,
                    ) && text::option_text(out.incomplete) == left_open(answers, cs.len() as int)
            },
        }
}

/// The ids of the chosen constraints.
fn chosen_ids(constraints: &Vec<Constraint>, keep: &Vec<usize>) -> (r: Vec<String>)
    requires
        forall|k: int| 0 <= k < keep@.len() ==> (#[trigger] keep@[k]) < constraints@.len(),
    ensures
        text::texts(r@) == ids(
            verdict::picked(verdict::constraint_views(constraints@), keep@),
        ),
{
    let ghost kept = verdict::picked(verdict::constraint_views(constraints@), keep@);
    let mut out: Vec<String> = Vec::new();
    let mut i: usize = 0;
    while i < keep.len()
        invariant
            i <= keep@.len(),
            kept == verdict::picked(verdict::constraint_views(constraints@), keep@),
            forall|k: int| 0 <= k < keep@.len() ==> (#[trigger] keep@[k]) < constraints@.len(),
            out@.len() == i,
            forall|k: int| 0 <= k < i ==> (#[trigger] out@[k])@ == kept[k].id,
        decreases keep@.len() - i,
    {
        out.push(constraints[keep[i]].id.clone());
        i += 1;
    }
    assert(text::texts(out@) =~= ids(kept));
    out
}

/// Shrink an inconsistent rule set to a minimal conflicting subset.
fn named_conflict(compiled: &CompiledPolicy, budget: &Budget, timed: bool) -> (r: Vec<String>)
    ensures
        conflict(
            !timed,
            compiled.env@,
            budget.limits(),
            verdict::constraint_views(compiled.constraints@),
            text::texts(r@),
        ),
{
    let extra: Vec<Expr> = Vec::new();
    assert(logic::exprs(extra@) =~= Seq::empty());
    let core = minimal_core(
        &compiled.env,
        compiled.constraints.as_slice(),
        &extra,
        budget,
        timed,
    );
    chosen_ids(&compiled.constraints, &core)
}

/// The question whether the rule at `skip` follows from the others.
fn redundancy_question(constraints: &Vec<Constraint>, skip: usize) -> (r: Vec<Expr>)
    requires
        skip < constraints@.len(),
    ensures
        logic::exprs(r@) == without_rule(
            verdict::constraint_views(constraints@),
            skip as int,
        ),
{
    let ghost cs = verdict::constraint_views(constraints@);
    let ghost rest = cs.remove(skip as int);
    let mut out: Vec<Expr> = Vec::new();
    let mut i: usize = 0;
    while i < constraints.len()
        invariant
            i <= constraints@.len(),
            skip < constraints@.len(),
            cs == verdict::constraint_views(constraints@),
            rest == cs.remove(skip as int),
            out@.len() == (if i <= skip {
                i as int
            } else {
                i - 1
            }),
            forall|k: int| 0 <= k < out@.len() ==> (#[trigger] out@[k])@ == rest[k].expr,
        decreases constraints@.len() - i,
    {
        if i != skip {
            out.push(constraints[i].expr.clone());
        }
        i += 1;
    }
    let ghost before = out@;
    out.push(constraints[skip].expr.clone().not());
    assert(logic::exprs(out@) =~= verdict::formulas(rest).push(
        logic::negation(cs[skip as int].expr),
    ));
    out
}

/// The variables that the rules use, in order and with repetitions.
fn used_variables(constraints: &Vec<Constraint>) -> (r: Vec<String>)
    ensures
        text::texts(r@) == logic::vars_of_all(
            verdict::formulas(verdict::constraint_views(constraints@)),
        ),
{
    let ghost fs = verdict::formulas(verdict::constraint_views(constraints@));
    let mut out: Vec<String> = Vec::new();
    let mut i: usize = 0;
    assert(text::texts(out@) =~= Seq::empty());
    while i < constraints.len()
        invariant
            i <= constraints@.len(),
            fs == verdict::formulas(verdict::constraint_views(constraints@)),
            text::texts(out@) == logic::vars_of_all(fs.take(i as int)),
        decreases constraints@.len() - i,
    {
        proof {
            assert(fs.take(i + 1).drop_last() =~= fs.take(i as int));
            assert(fs.take(i + 1).last() == fs[i as int]);
        }
        constraints[i].expr.vars(&mut out);
        i += 1;
    }
    assert(fs.take(i as int) =~= fs);
    out
}

/// The declared names that do not occur among the used ones.
fn unused_names(vars: &Vec<Variable>, used: &Vec<String>) -> (r: Vec<String>)
    ensures
        text::texts(r@) == unused(vars@, text::texts(used@)),
{
    let mut out: Vec<String> = Vec::new();
    let mut i: usize = 0;
    assert(text::texts(out@) =~= unused(vars@.take(0), text::texts(used@)));
    while i < vars.len()
        invariant
            i <= vars@.len(),
            text::texts(out@) == unused(vars@.take(i as int), text::texts(used@)),
        decreases vars@.len() - i,
    {
        proof {
            assert(vars@.take(i + 1).drop_last() =~= vars@.take(i as int));
            assert(vars@.take(i + 1).last() == vars@[i as int]);
        }
        let ghost before = out@;
        if !holds_text(used, vars[i].name.as_str()) {
            out.push(vars[i].name.clone());
            assert(text::texts(out@) =~= text::texts(before).push(vars@[i as int].name@));
        }
        i += 1;
    }
    assert(vars@.take(i as int) =~= vars@);
    out
}

fn analyze_by(policy: &Policy, budget: &Budget, timed: bool) -> (r: PolicyAnalysis)
    ensures
        exists|env: Sorts| #[trigger]
            is_env(policy.variables@, env) && ({
                let cs = compiled(rule_views(policy.rules@), env);
                &&& analyzed(!timed, env, budget.limits(), cs, r)
                &&& error_views(r.errors@) == rejected(rule_views(policy.rules@), env)
                &&& text::texts(r.unused_variables@) == unused(
                    policy.variables@,
                    logic::vars_of_all(verdict::formulas(cs)),
                )
            }),
{
    let compiled = CompiledPolicy::compile(policy);
    let ghost exact = !timed;
    let ghost env = compiled.env@;
    let ghost lim = budget.limits();
    let ghost cs = verdict::constraint_views(compiled.constraints@);
    let used = used_variables(&compiled.constraints);
    let unused_variables = unused_names(&policy.variables, &used);
    let all = base_formulas(compiled.constraints.as_slice());
    let outcome = ask(&compiled.env, &all, budget, timed);
    assert(verdict::asked(exact, env, lim, verdict::formulas(cs), outcome@));
    let none: Vec<String> = Vec::new();
    match outcome {
        Outcome::Unsat => {
            let conflicting_rules = named_conflict(&compiled, budget, timed);
            let r = PolicyAnalysis {
                consistent: false,
                conflicting_rules,
                redundant_rules: none,
                errors: compiled.errors,
                unused_variables,
                incomplete: None,
            };
            assert(analyzed(exact, env, lim, cs, r));
            assert(is_env(policy.variables@, env));
            return r;
        },
        Outcome::Unknown(why) => {
            let r = PolicyAnalysis {
                consistent: true,
                conflicting_rules: none,
                redundant_rules: Vec::new(),
                errors: compiled.errors,
                unused_variables,
                incomplete: Some(why),
            };
            assert(analyzed(exact, env, lim, cs, r));
            assert(is_env(policy.variables@, env));
            return r;
        },
        Outcome::Sat(_) => {},
    }
    // Redundancy: rule R is redundant when (others ∧ ¬R) has no model.
    let mut redundant_rules: Vec<String> = Vec::new();
    let mut incomplete: Option<String> = None;
    let ghost mut answers: Seq<OutcomeV> = Seq::empty();
    let mut i: usize = 0;
    assert(text::texts(redundant_rules@) =~= Seq::empty());
    while i < compiled.constraints.len()
        invariant
            i <= compiled.constraints@.len(),
            exact == !timed,
            env == compiled.env@,
            lim == budget.limits(),
            cs == verdict::constraint_views(compiled.constraints@),
            answers.len() == i,
            probed(exact, env, lim, cs, answers),
            text::texts(redundant_rules@) == redundant(cs, answers, i as int),
            text::option_text(incomplete) == left_open(answers, i as int),
        decreases compiled.constraints@.len() - i,
    {
        let question = redundancy_question(&compiled.constraints, i);
        let answer = ask(&compiled.env, &question, budget, timed);
        let ghost before = answers;
        let ghost rules_before = redundant_rules@;
        proof {
            answers = answers.push(answer@);
            lemma_prefix(cs, before, answer@, i as int);
            assert(answers[i as int] == answer@);
            assert(forall|k: int| 0 <= k < i ==> answers[k] == before[k]);
        }
        match answer {
            Outcome::Unsat => {
                redundant_rules.push(compiled.constraints[i].id.clone());
                assert(text::texts(redundant_rules@) =~= text::texts(rules_before).push(
                    cs[i as int].id,
                ));
            },
            Outcome::Unknown(why) => {
                if incomplete.is_none() {
                    incomplete = Some(why);
                }
            },
            Outcome::Sat(_) => {},
        }
        i += 1;
    }
    let r = PolicyAnalysis {
        consistent: true,
        conflicting_rules: none,
        redundant_rules,
        errors: compiled.errors,
        unused_variables,
        incomplete,
    };
    assert(analyzed(exact, env, lim, cs, r));
    assert(is_env(policy.variables@, env));
    r
}

proof fn lemma_prefix(cs: Seq<ConstraintV>, answers: Seq<OutcomeV>, o: OutcomeV, n: int)
    requires
        0 <= n <= answers.len(),
    ensures
        redundant(cs, answers.push(o), n) == redundant(cs, answers, n),
        left_open(answers.push(o), n) == left_open(answers, n),
    decreases n,
{
    if n > 0 {
        lemma_prefix(cs, answers, o, n - 1);
        assert(answers.push(o)[n - 1] == answers[n - 1]);
    }
}

/// Interrogate a policy on its own: consistency, redundancy, unused variables.
pub fn analyze(policy: &Policy, budget: &Budget) -> (r: PolicyAnalysis)
    ensures
        exists|env: Sorts| #[trigger]
            is_env(policy.variables@, env) && ({
                let cs = compiled(rule_views(policy.rules@), env);
                &&& analyzed(false, env, budget.limits(), cs, r)
                &&& error_views(r.errors@) == rejected(rule_views(policy.rules@), env)
                &&& text::texts(r.unused_variables@) == unused(
                    policy.variables@,
                    logic::vars_of_all(verdict::formulas(cs)),
                )
            }),
{
    analyze_by(policy, budget, true)
}

/// Interrogate a policy without a time limit.
pub fn analyze_untimed(policy: &Policy, budget: &Budget) -> (r: PolicyAnalysis)
    ensures
        exists|env: Sorts| #[trigger]
            is_env(policy.variables@, env) && ({
                let cs = compiled(rule_views(policy.rules@), env);
                &&& analyzed(true, env, budget.limits(), cs, r)
                &&& error_views(r.errors@) == rejected(rule_views(policy.rules@), env)
                &&& text::texts(r.unused_variables@) == unused(
                    policy.variables@,
                    logic::vars_of_all(verdict::formulas(cs)),
                )
            }),
{
    analyze_by(policy, budget, false)
}

/// A policy reported as inconsistent is: no world satisfies its rules. And a rule that
/// is reported as redundant follows from the others.
pub proof fn lemma_analysis_means(
    exact: bool,
    env: Sorts,
    lim: Limits,
    cs: Seq<ConstraintV>,
    out: PolicyAnalysis,
    id: Seq<char>,
)
    requires
        analyzed(exact, env, lim, cs, out),
    ensures
        !out.consistent ==> !semantics::satisfiable(env, verdict::formulas(cs)),
        text::texts(out.redundant_rules@).contains(id) ==> exists|i: int|
            0 <= i < cs.len() && (#[trigger] cs[i]).id == id && semantics::entails(
                env,
                verdict::formulas(cs.remove(i)),
                cs[i].expr,
            ),
{
    let o = choose|o: OutcomeV| #[trigger]
        verdict::asked(exact, env, lim, verdict::formulas(cs), o) && match o {
            OutcomeV::Unsat => {
                &&& !out.consistent
                &&& out.redundant_rules@.len() == 0
                &&& out.incomplete is None
                &&& conflict(exact, env, lim, cs, text::texts(out.conflicting_rules@))
            },
            OutcomeV::Unknown(why) => {
                &&& out.consistent
                &&& out.conflicting_rules@.len() == 0
                &&& out.redundant_rules@.len() == 0
                &&& text::option_text(out.incomplete) == Some(why)
            },
            OutcomeV::Sat(_) => {
                &&& out.consistent
                &&& out.conflicting_rules@.len() == 0
                &&& exists|answers: Seq<OutcomeV>| #[trigger]
                    probed(exact, env, lim, cs, answers) && answers.len() == cs.len()
                        && text::texts(out.redundant_rules@) == redundant(
                        cs,
                        answers,
                        cs.len() as int,
                    ) && text::option_text(out.incomplete) == left_open(answers, cs.len() as int)
            },
        };
    if o is Sat && text::texts(out.redundant_rules@).contains(id) {
        let answers = choose|answers: Seq<OutcomeV>| #[trigger]
            probed(exact, env, lim, cs, answers) && answers.len() == cs.len() && text::texts(
                out.redundant_rules@,
            ) == redundant(cs, answers, cs.len() as int) && text::option_text(out.incomplete)
                == left_open(answers, cs.len() as int);
        let i = lemma_redundant_from(cs, answers, cs.len() as int, id);
        let rest = verdict::formulas(cs.remove(i));
        assert(verdict::asked(exact, env, lim, without_rule(cs, i), answers[i]));
        semantics::lemma_refutation(env, rest, cs[i].expr);
        assert(cs[i].id == id);
    }
}

/// The rules named as conflicting do conflict: they are rules of the policy, and no world
/// satisfies them together. And none of them can be left out: without it some world
/// satisfies the others, unless the solver could not tell.
pub proof fn lemma_conflict_named(
    exact: bool,
    env: Sorts,
    lim: Limits,
    cs: Seq<ConstraintV>,
    out: PolicyAnalysis,
)
    requires
        analyzed(exact, env, lim, cs, out),
        !out.consistent,
    ensures
        exists|core: Seq<ConstraintV>|
            text::texts(out.conflicting_rules@) == ids(core) && #[trigger] verdict::settles(
                env,
                cs,
                core,
                ExprV::Const(false),
                Verdict::Impossible,
            ) && (soundness::inhabited(env, verdict::formulas(cs)) ==> forall|k: int|
                0 <= k < core.len() ==> #[trigger] verdict::needed(
                    exact,
                    env,
                    lim,
                    cs,
                    core,
                    k,
                    Seq::empty(),
                )),
{
    let named = text::texts(out.conflicting_rules@);
    let none = Seq::<ExprV>::empty();
    let core = choose|core: Seq<ConstraintV>| #[trigger]
        verdict::reduces_to(exact, env, lim, cs, 0, none, core) && named == ids(core);
    assert(verdict::reduces_to(exact, env, lim, cs, 0, none, core));
    lemma_analysis_means(exact, env, lim, cs, out, Seq::empty());
    assert(verdict::formulas(cs) + none =~= verdict::formulas(cs));
    assert(verdict::formulas(core) + none =~= verdict::formulas(core));
    verdict::lemma_core_suffices(exact, env, lim, cs, 0, none, core);
    verdict::lemma_core_within(exact, env, lim, cs, none, core);
    if soundness::inhabited(env, verdict::formulas(cs)) {
        assert forall|k: int| 0 <= k < core.len() implies #[trigger] verdict::needed(
            exact,
            env,
            lim,
            cs,
            core,
            k,
            none,
        ) by {
            verdict::lemma_core_minimal(exact, env, lim, cs, 0, none, core, k);
        }
    }
    assert(verdict::settles(env, cs, core, ExprV::Const(false), Verdict::Impossible));
}

proof fn lemma_one_probe(
    env: Sorts,
    lim: Limits,
    cs: Seq<ConstraintV>,
    a: Seq<OutcomeV>,
    b: Seq<OutcomeV>,
)
    requires
        probed(true, env, lim, cs, a),
        probed(true, env, lim, cs, b),
        a.len() == b.len(),
    ensures
        a == b,
{
    assert forall|i: int| 0 <= i < a.len() implies a[i] == b[i] by {
        assert(verdict::asked(true, env, lim, without_rule(cs, i), a[i]));
        assert(verdict::asked(true, env, lim, without_rule(cs, i), b[i]));
    }
    assert(a =~= b);
}

/// Analysis is deterministic: without a time limit the same rules get the same analysis.
pub proof fn lemma_one_analysis(
    env: Sorts,
    lim: Limits,
    cs: Seq<ConstraintV>,
    a: PolicyAnalysis,
    b: PolicyAnalysis,
)
    requires
        analyzed(true, env, lim, cs, a),
        analyzed(true, env, lim, cs, b),
    ensures
        a.consistent == b.consistent,
        text::texts(a.conflicting_rules@) == text::texts(b.conflicting_rules@),
        text::texts(a.redundant_rules@) == text::texts(b.redundant_rules@),
        text::option_text(a.incomplete) == text::option_text(b.incomplete),
{
    let n = cs.len() as int;
    let none = Seq::<ExprV>::empty();
    match decision::decision(env, verdict::formulas(cs), lim) {
        OutcomeV::Unsat => {
            let x = choose|core: Seq<ConstraintV>| #[trigger]
                verdict::reduces_to(true, env, lim, cs, 0, none, core) && text::texts(
                    a.conflicting_rules@,
                ) == ids(core);
            let y = choose|core: Seq<ConstraintV>| #[trigger]
                verdict::reduces_to(true, env, lim, cs, 0, none, core) && text::texts(
                    b.conflicting_rules@,
                ) == ids(core);
            verdict::lemma_one_core(env, lim, cs, 0, none, x, y);
            assert(text::texts(a.redundant_rules@) =~= text::texts(b.redundant_rules@));
        },
        OutcomeV::Unknown(_) => {
            assert(text::texts(a.conflicting_rules@) =~= text::texts(b.conflicting_rules@));
            assert(text::texts(a.redundant_rules@) =~= text::texts(b.redundant_rules@));
        },
        OutcomeV::Sat(_) => {
            let x = choose|x: Seq<OutcomeV>| #[trigger]
                probed(true, env, lim, cs, x) && x.len() == cs.len() && text::texts(
                    a.redundant_rules@,
                ) == redundant(cs, x, n) && text::option_text(a.incomplete) == left_open(x, n);
            let y = choose|y: Seq<OutcomeV>| #[trigger]
                probed(true, env, lim, cs, y) && y.len() == cs.len() && text::texts(
                    b.redundant_rules@,
                ) == redundant(cs, y, n) && text::option_text(b.incomplete) == left_open(y, n);
            lemma_one_probe(env, lim, cs, x, y);
            assert(text::texts(a.conflicting_rules@) =~= text::texts(b.conflicting_rules@));
        },
    }
}

proof fn lemma_redundant_from(
    cs: Seq<ConstraintV>,
    answers: Seq<OutcomeV>,
    n: int,
    id: Seq<char>,
) -> (i: int)
    requires
        0 <= n <= cs.len(),
        redundant(cs, answers, n).contains(id),
    ensures
        0 <= i < n,
        cs[i].id == id,
        answers[i] is Unsat,
    decreases n,
{
    let all = redundant(cs, answers, n);
    let front = redundant(cs, answers, n - 1);
    let k = all.index_of(id);
    if answers[n - 1] is Unsat && k == front.len() {
        n - 1
    } else {
        assert(front[k] == id);
        lemma_redundant_from(cs, answers, n - 1, id)
    }
}

// ── What a selection keeps ──────────────────────────────────────────────────────

/// The constraints of a policy are exactly its rules that are enabled and parse, in order:
/// each has the id and the expression of its rule and the formula that the expression
/// denotes, and quotes the rule's prose, or its expression where there is none.
pub proof fn lemma_compiled_rules(rules: Seq<RuleV>, env: Sorts) -> (at: Seq<int>)
    ensures
        lists::ascending(at, rules.len() as int),
        compiled(rules, env).len() == at.len(),
        forall|k: int|
            #![trigger at[k]]
            0 <= k < at.len() ==> {
                &&& rules[at[k]].enabled && grammar::parsed(rules[at[k]].expression, env) is Ok
                &&& compiled(rules, env)[k].id == rules[at[k]].id
                    && compiled(rules, env)[k].expression == rules[at[k]].expression
                    && compiled(rules, env)[k].origin == Origin::Rule
                &&& grammar::parsed(rules[at[k]].expression, env)
                    == Ok::<ExprV, ErrV>(compiled(rules, env)[k].expr)
                &&& compiled(rules, env)[k].statement
                    == if text::trimmed(rules[at[k]].statement).len() == 0 {
                    rules[at[k]].expression
                } else {
                    rules[at[k]].statement
                }
            },
        forall|i: int|
            #![trigger rules[i]]
            0 <= i < rules.len() && rules[i].enabled
                && grammar::parsed(rules[i].expression, env) is Ok ==> at.contains(i),
    decreases rules.len(),
{
    if rules.len() == 0 {
        Seq::empty()
    } else {
        let init = rules.drop_last();
        let n = init.len() as int;
        let front = lemma_compiled_rules(init, env);
        lists::lemma_extended(front, n);
        let e = rules[n];
        let at = if e.enabled && grammar::parsed(e.expression, env) is Ok {
            front.push(n)
        } else {
            front
        };
        assert forall|k: int| #![trigger at[k]] 0 <= k < at.len() implies {
            &&& rules[at[k]].enabled && grammar::parsed(rules[at[k]].expression, env) is Ok
            &&& compiled(rules, env)[k].id == rules[at[k]].id
                && compiled(rules, env)[k].expression == rules[at[k]].expression
                && compiled(rules, env)[k].origin == Origin::Rule
                &&& grammar::parsed(rules[at[k]].expression, env)
                    == Ok::<ExprV, ErrV>(compiled(rules, env)[k].expr)
                &&& compiled(rules, env)[k].statement
                    == if text::trimmed(rules[at[k]].statement).len() == 0 {
                    rules[at[k]].expression
                } else {
                    rules[at[k]].statement
                }
        } by {
            if k < front.len() {
                assert(compiled(init, env)[k] == compiled(rules, env)[k]);
                assert(init[front[k]] == rules[front[k]]);
            }
        }
        assert forall|i: int|
            #![trigger rules[i]]
            0 <= i < rules.len() && rules[i].enabled
                && grammar::parsed(rules[i].expression, env) is Ok implies at.contains(i) by {
            if i < n {
                assert(init[i] == rules[i]);
                assert(front.contains(i));
            }
        }
        at
    }
}

/// The errors of a policy are exactly those of its rules that are enabled and do not
/// parse, in order.
pub proof fn lemma_rejected_rules(rules: Seq<RuleV>, env: Sorts) -> (at: Seq<int>)
    ensures
        lists::ascending(at, rules.len() as int),
        rejected(rules, env).len() == at.len(),
        forall|k: int|
            #![trigger at[k]]
            0 <= k < at.len() ==> {
                &&& rules[at[k]].enabled && grammar::parsed(rules[at[k]].expression, env) is Err
                &&& rejected(rules, env)[k].rule_id == rules[at[k]].id
                    && rejected(rules, env)[k].expression == rules[at[k]].expression
                &&& grammar::parsed(rules[at[k]].expression, env)
                    == Err::<ExprV, ErrV>(rejected(rules, env)[k].error)
            },
        forall|i: int|
            #![trigger rules[i]]
            0 <= i < rules.len() && rules[i].enabled
                && grammar::parsed(rules[i].expression, env) is Err ==> at.contains(i),
    decreases rules.len(),
{
    if rules.len() == 0 {
        Seq::empty()
    } else {
        let init = rules.drop_last();
        let n = init.len() as int;
        let front = lemma_rejected_rules(init, env);
        lists::lemma_extended(front, n);
        let e = rules[n];
        let at = if e.enabled && grammar::parsed(e.expression, env) is Err {
            front.push(n)
        } else {
            front
        };
        assert forall|k: int| #![trigger at[k]] 0 <= k < at.len() implies {
            &&& rules[at[k]].enabled && grammar::parsed(rules[at[k]].expression, env) is Err
            &&& rejected(rules, env)[k].rule_id == rules[at[k]].id
                && rejected(rules, env)[k].expression == rules[at[k]].expression
                &&& grammar::parsed(rules[at[k]].expression, env)
                    == Err::<ExprV, ErrV>(rejected(rules, env)[k].error)
        } by {
            if k < front.len() {
                assert(rejected(init, env)[k] == rejected(rules, env)[k]);
                assert(init[front[k]] == rules[front[k]]);
            }
        }
        assert forall|i: int|
            #![trigger rules[i]]
            0 <= i < rules.len() && rules[i].enabled
                && grammar::parsed(rules[i].expression, env) is Err implies at.contains(i) by {
            if i < n {
                assert(init[i] == rules[i]);
                assert(front.contains(i));
            }
        }
        at
    }
}

/// The unused variables are those declared ones that are not used, in the order of their
/// declarations.
pub proof fn lemma_unused_positions(vars: Seq<Variable>, used: Seq<Seq<char>>) -> (at: Seq<int>)
    ensures
        lists::ascending(at, vars.len() as int),
        unused(vars, used).len() == at.len(),
        forall|k: int|
            #![trigger at[k]]
            0 <= k < at.len() ==> {
                &&& !used.contains(vars[at[k]].name@)
                &&& unused(vars, used)[k] == vars[at[k]].name@
            },
        forall|i: int|
            #![trigger vars[i]]
            0 <= i < vars.len() && !used.contains(vars[i].name@) ==> at.contains(i),
    decreases vars.len(),
{
    if vars.len() == 0 {
        Seq::empty()
    } else {
        let init = vars.drop_last();
        let n = init.len() as int;
        let front = lemma_unused_positions(init, used);
        lists::lemma_extended(front, n);
        let e = vars[n];
        let at = if !used.contains(e.name@) {
            front.push(n)
        } else {
            front
        };
        assert forall|k: int| #![trigger at[k]] 0 <= k < at.len() implies {
            &&& !used.contains(vars[at[k]].name@)
            &&& unused(vars, used)[k] == vars[at[k]].name@
        } by {
            if k < front.len() {
                assert(unused(init, used)[k] == unused(vars, used)[k]);
                assert(init[front[k]] == vars[front[k]]);
            }
        }
        assert forall|i: int|
            #![trigger vars[i]]
            0 <= i < vars.len() && !used.contains(vars[i].name@) implies at.contains(i) by {
            if i < n {
                assert(init[i] == vars[i]);
                assert(front.contains(i));
            }
        }
        at
    }
}

/// A name is reported as unused exactly if it is declared and is not among the used names.
pub proof fn lemma_unused(vars: Seq<Variable>, used: Seq<Seq<char>>, x: Seq<char>)
    ensures
        unused(vars, used).contains(x) <==> !used.contains(x) && exists|i: int|
            0 <= i < vars.len() && (#[trigger] vars[i]).name@ == x,
{
    let at = lemma_unused_positions(vars, used);
    let r = unused(vars, used);
    if r.contains(x) {
        let k = r.index_of(x);
        assert(r[k] == vars[at[k]].name@);
    }
    if !used.contains(x) && exists|i: int|
        0 <= i < vars.len() && (#[trigger] vars[i]).name@ == x {
        let i = choose|i: int| 0 <= i < vars.len() && (#[trigger] vars[i]).name@ == x;
        assert(at.contains(i));
        let k = at.index_of(i);
        assert(at[k] == i);
        assert(r[k] == x);
    }
}

/// A variable is reported as unused exactly if it is declared and no atom of any compiled
/// rule mentions it.
pub proof fn lemma_unused_means(vars: Seq<Variable>, cs: Seq<ConstraintV>, x: Seq<char>)
    ensures
        unused(vars, logic::vars_of_all(verdict::formulas(cs))).contains(x) <==> {
            &&& exists|i: int| 0 <= i < vars.len() && (#[trigger] vars[i]).name@ == x
            &&& forall|k: int, a: AtomV|
                0 <= k < cs.len() && #[trigger] logic::atoms_of(cs[k].expr).contains(a)
                    ==> !soundness::atom_mentions(a, x)
        },
{
    let items = verdict::formulas(cs);
    let used = logic::vars_of_all(items);
    lemma_unused(vars, used, x);
    if used.contains(x) {
        let a = soundness::lemma_mentioned_items(items, x);
        let k = semantics::lemma_atom_from(items, a);
        assert(items[k] == cs[k].expr);
        assert(logic::atoms_of(cs[k].expr).contains(a));
    } else {
        assert forall|k: int, a: AtomV|
            0 <= k < cs.len() && #[trigger] logic::atoms_of(
                cs[k].expr,
            ).contains(a) implies !soundness::atom_mentions(a, x) by {
            assert(items[k] == cs[k].expr);
            semantics::lemma_atoms_of_item(items, k, a);
            if soundness::atom_mentions(a, x) {
                soundness::lemma_mentions_items(items, a, x);
            }
        }
    }
}

/// The rules listed as redundant are those, in order, whose question was answered with
/// `Unsat`.
pub proof fn lemma_redundant_rules(cs: Seq<ConstraintV>, answers: Seq<OutcomeV>, n: int) -> (at:
    Seq<int>)
    requires
        0 <= n <= cs.len(),
        n <= answers.len(),
    ensures
        lists::ascending(at, n),
        redundant(cs, answers, n).len() == at.len(),
        forall|k: int|
            #![trigger at[k]]
            0 <= k < at.len() ==> {
                &&& answers[at[k]] is Unsat
                &&& redundant(cs, answers, n)[k] == cs[at[k]].id
            },
        forall|i: int|
            #![trigger answers[i]]
            0 <= i < n && answers[i] is Unsat ==> at.contains(i),
    decreases n,
{
    if n == 0 {
        Seq::empty()
    } else {
        let front = lemma_redundant_rules(cs, answers, n - 1);
        lists::lemma_extended(front, n - 1);
        let at = if answers[n - 1] is Unsat {
            front.push(n - 1)
        } else {
            front
        };
        assert forall|k: int| #![trigger at[k]] 0 <= k < at.len() implies {
            &&& answers[at[k]] is Unsat
            &&& redundant(cs, answers, n)[k] == cs[at[k]].id
        } by {
            if k < front.len() {
                assert(at[k] == front[k]);
                assert(redundant(cs, answers, n - 1)[k] == redundant(cs, answers, n)[k]);
            }
        }
        assert forall|i: int|
            #![trigger answers[i]]
            0 <= i < n && answers[i] is Unsat implies at.contains(i) by {
            if i < n - 1 {
                assert(front.contains(i));
            }
        }
        at
    }
}

/// An analysis is left open exactly if one of its questions was, and for the reason of the
/// first of these.
pub proof fn lemma_left_open(answers: Seq<OutcomeV>, n: int)
    requires
        0 <= n <= answers.len(),
    ensures
        left_open(answers, n) is None <==> forall|i: int|
            0 <= i < n ==> !((#[trigger] answers[i]) is Unknown),
        left_open(answers, n) matches Some(why) ==> exists|i: int|
            {
                &&& 0 <= i < n
                &&& #[trigger] answers[i] == OutcomeV::Unknown(why)
                &&& forall|j: int| 0 <= j < i ==> !((#[trigger] answers[j]) is Unknown)
            },
    decreases n,
{
    if n > 0 {
        lemma_left_open(answers, n - 1);
        if left_open(answers, n - 1) is None && answers[n - 1] is Unknown {
            assert(answers[n - 1] == OutcomeV::Unknown(left_open(answers, n)->0));
        }
    }
}

/// Where time does not matter the analysis is determined. It reports an inconsistency
/// exactly where the rules together are decided to be contradictory; where they are not, it
/// lists, in order, exactly the rules that are decided to follow from the others; and it is
/// complete exactly where no question stayed open.
pub proof fn lemma_analysis_decides(
    env: Sorts,
    lim: Limits,
    cs: Seq<ConstraintV>,
    out: PolicyAnalysis,
) -> (at: Seq<int>)
    requires
        analyzed(true, env, lim, cs, out),
    ensures
        out.consistent <==> !(decision::decision(env, verdict::formulas(cs), lim) is Unsat),
        decision::decision(env, verdict::formulas(cs), lim) is Sat ==> {
            &&& lists::ascending(at, cs.len() as int)
            &&& out.redundant_rules@.len() == at.len()
            &&& forall|k: int|
                #![trigger at[k]]
                0 <= k < at.len() ==> {
                    &&& decision::decision(env, without_rule(cs, at[k]), lim) is Unsat
                    &&& out.redundant_rules@[k]@ == cs[at[k]].id
                }
            &&& forall|i: int|
                #![trigger cs[i]]
                0 <= i < cs.len() && decision::decision(env, without_rule(cs, i), lim) is Unsat
                    ==> at.contains(i)
            &&& out.incomplete is None <==> forall|i: int|
                #![trigger cs[i]]
                0 <= i < cs.len() ==> !(decision::decision(
                    env,
                    without_rule(cs, i),
                    lim,
                ) is Unknown)
        },
        decision::decision(env, verdict::formulas(cs), lim) is Unsat ==> out.incomplete is None,
        decision::decision(env, verdict::formulas(cs), lim) is Unknown ==> out.incomplete is Some,
{
    let d = decision::decision(env, verdict::formulas(cs), lim);
    if d is Sat {
        let n = cs.len() as int;
        let answers = choose|answers: Seq<OutcomeV>| #[trigger]
            probed(true, env, lim, cs, answers) && answers.len() == cs.len() && text::texts(
                out.redundant_rules@,
            ) == redundant(cs, answers, cs.len() as int) && text::option_text(out.incomplete)
                == left_open(answers, cs.len() as int);
        let at = lemma_redundant_rules(cs, answers, n);
        lemma_left_open(answers, n);
        assert forall|i: int| 0 <= i < n implies #[trigger] answers[i] == decision::decision(
            env,
            without_rule(cs, i),
            lim,
        ) by {
            assert(verdict::asked(true, env, lim, without_rule(cs, i), answers[i]));
        }
        assert forall|k: int| #![trigger at[k]] 0 <= k < at.len() implies {
            &&& decision::decision(env, without_rule(cs, at[k]), lim) is Unsat
            &&& out.redundant_rules@[k]@ == cs[at[k]].id
        } by {
            assert(answers[at[k]] is Unsat);
            assert(text::texts(out.redundant_rules@)[k] == out.redundant_rules@[k]@);
        }
        assert forall|i: int|
            #![trigger cs[i]]
            0 <= i < n && decision::decision(
                env,
                without_rule(cs, i),
                lim,
            ) is Unsat implies at.contains(i) by {
            assert(answers[i] is Unsat);
        }
        if out.incomplete is None {
            assert forall|i: int| #![trigger cs[i]] 0 <= i < n implies !(decision::decision(
                env,
                without_rule(cs, i),
                lim,
            ) is Unknown) by {
                assert(!(answers[i] is Unknown));
            }
        } else {
            let i = choose|i: int| 0 <= i < n && (#[trigger] answers[i]) is Unknown;
            assert(decision::decision(env, without_rule(cs, i), lim) is Unknown);
            assert(cs[i] == cs[i]);
        }
        at
    } else {
        Seq::empty()
    }
}

} // verus!
