//! Turning three solver calls into an answer a person can act on.
//!
//! Given a policy `P`, the premises `Q` extracted from the question, and one claim
//! `C` extracted from the answer, the verdict is decided in a **fixed order**:
//!
//! | # | question asked of the solver | answer | verdict |
//! |---|------------------------------|--------|---------|
//! | 1 | is `P ∧ Q` satisfiable?      | no     | impossible |
//! | 2 | is `P ∧ Q ∧ ¬C` satisfiable? | no     | valid |
//! | 3 | is `P ∧ Q ∧ C` satisfiable?  | no     | invalid |
//! | – | both 2 and 3 satisfiable     |        | satisfiable |
//!
//! **Step 1 is not optional.** If the policy contradicts itself — or contradicts the
//! situation described in the question — then `P ∧ Q ∧ ¬C` is unsatisfiable for
//! *every* `C`, and skipping straight to step 2 would stamp every claim, true or
//! false, as proven.
//!
//! # Where the suggestions come from
//!
//! Everything this module reports is read back out of the solver:
//!
//! * **which rules mattered** — a minimal unsatisfiable core, computed by deleting
//!   one constraint at a time and re-asking. What survives is a set with no
//!   removable member, i.e. the rules that actually did the work.
//! * **unstated assumptions** (for a valid claim) — the members of that core that
//!   came from the *premises* rather than the policy.
//! * **the counterexample** (for an invalid claim) — a concrete assignment
//!   satisfying the policy and the premises in which the claim is false.
//! * **what would have to change** — a model of `P ∧ C`, diffed against the
//!   counterexample. The differing variables are exactly the conditions under which
//!   the answer would have been right.

use vstd::prelude::*;

use crate::decision;
use crate::decision::{Limits, OutcomeV, ValueV};
use crate::lists;
use crate::logic;
use crate::logic::{Expr, ExprV};
use crate::names;
use crate::names::NameMap;
use crate::semantics;
use crate::semantics::{Sorts, Valuation};
use crate::solver;
use crate::solver::{decide, decide_untimed, Budget, Env, Model, Outcome, Value};
use crate::soundness;
use crate::text;
use crate::text::{cat3, count, holds_text, join, same};

verus! {

/// The outcome vocabulary. Wider than a pass/fail flag on purpose: "I could not
/// formalize this" and "this could be either way" are different situations from
/// "this is false", and collapsing them is how a checker becomes untrustworthy.
#[derive(Clone, Copy, Debug, PartialEq, Eq, Structural)]
pub enum Verdict {
    /// The policy and premises **entail** the claim. It cannot be false here.
    Valid,
    /// The policy and premises **contradict** the claim. It cannot be true here.
    Invalid,
    /// Consistent with the policy but not implied by it — the answer might be right,
    /// and the policy does not say. Usually means a missing fact, not a missing rule.
    Satisfiable,
    /// The policy and premises contradict *each other*, so nothing can be concluded.
    /// Either the policy has conflicting rules or the question describes an
    /// impossible situation.
    Impossible,
    /// The answer said nothing this policy can express, or nothing that parsed.
    NoTranslations,
    /// The answer had more than one reasonable formalization, and they disagree.
    /// Reported rather than resolved: picking one at random would be a guess.
    TranslationAmbiguous,
    /// A solver budget ran out. Explicitly not a verdict.
    TooComplex,
}

/// The name of a verdict.
pub open spec fn verdict_name(v: Verdict) -> Seq<char> {
    match v {
        Verdict::Valid => "valid"@,
        Verdict::Invalid => "invalid"@,
        Verdict::Satisfiable => "satisfiable"@,
        Verdict::Impossible => "impossible"@,
        Verdict::NoTranslations => "no_translations"@,
        Verdict::TranslationAmbiguous => "translation_ambiguous"@,
        Verdict::TooComplex => "too_complex"@,
    }
}

impl Verdict {
    /// The name of the verdict.
    pub fn as_str(self) -> (r: &'static str)
        ensures
            r@ == verdict_name(self),
    {
        match self {
            Verdict::Valid => "valid",
            Verdict::Invalid => "invalid",
            Verdict::Satisfiable => "satisfiable",
            Verdict::Impossible => "impossible",
            Verdict::NoTranslations => "no_translations",
            Verdict::TranslationAmbiguous => "translation_ambiguous",
            Verdict::TooComplex => "too_complex",
        }
    }
}

/// Where a constraint came from, which is what separates "the policy says" from
/// "your question implied".
#[derive(Clone, Copy, Debug, PartialEq, Eq, Structural)]
pub enum Origin {
    Rule,
    Premise,
}

/// One labelled formula the verdict layer reasons with.
#[derive(Debug)]
pub struct Constraint {
    pub id: String,
    /// The natural-language sentence, shown in findings.
    pub statement: String,
    /// The DSL source it was compiled from.
    pub expression: String,
    pub expr: Expr,
    pub origin: Origin,
}

/// A labelled formula by its contents.
#[verifier::ext_equal]
pub struct ConstraintV {
    pub id: Seq<char>,
    pub statement: Seq<char>,
    pub expression: Seq<char>,
    pub expr: ExprV,
    pub origin: Origin,
}

impl View for Constraint {
    type V = ConstraintV;

    open spec fn view(&self) -> ConstraintV {
        ConstraintV {
            id: self.id@,
            statement: self.statement@,
            expression: self.expression@,
            expr: self.expr@,
            origin: self.origin,
        }
    }
}

impl Clone for Constraint {
    fn clone(&self) -> (r: Constraint)
        ensures
            r@ == self@,
    {
        Constraint {
            id: self.id.clone(),
            statement: self.statement.clone(),
            expression: self.expression.clone(),
            expr: self.expr.clone(),
            origin: self.origin,
        }
    }
}

/// A named constraint as it appears in a finding.
#[derive(Debug, PartialEq, Eq)]
pub struct ConstraintRef {
    pub id: String,
    pub statement: String,
    pub expression: String,
    pub origin: Origin,
}

/// A named constraint by its contents.
#[verifier::ext_equal]
pub struct RefV {
    pub id: Seq<char>,
    pub statement: Seq<char>,
    pub expression: Seq<char>,
    pub origin: Origin,
}

impl View for ConstraintRef {
    type V = RefV;

    open spec fn view(&self) -> RefV {
        RefV {
            id: self.id@,
            statement: self.statement@,
            expression: self.expression@,
            origin: self.origin,
        }
    }
}

/// What a finding says of a constraint.
pub open spec fn ref_of(c: ConstraintV) -> RefV {
    RefV { id: c.id, statement: c.statement, expression: c.expression, origin: c.origin }
}

impl ConstraintRef {
    /// What a finding says of a constraint.
    pub fn of(c: &Constraint) -> (r: ConstraintRef)
        ensures
            r@ == ref_of(c@),
    {
        ConstraintRef {
            id: c.id.clone(),
            statement: c.statement.clone(),
            expression: c.expression.clone(),
            origin: c.origin,
        }
    }
}

/// A solver-derived suggestion. `assignments` is the machine-readable half; `text` is
/// the same content rendered for a human.
#[derive(Debug, PartialEq, Eq)]
pub struct Suggestion {
    pub kind: String,
    pub text: String,
    pub assignments: NameMap<Value>,
}

/// Values by variable name, sorted by name.
pub type Entries = Seq<(Seq<char>, ValueV)>;

/// A suggestion by its contents.
#[verifier::ext_equal]
pub struct SuggestionV {
    pub kind: Seq<char>,
    pub text: Seq<char>,
    pub assignments: Entries,
}

impl View for Suggestion {
    type V = SuggestionV;

    open spec fn view(&self) -> SuggestionV {
        SuggestionV { kind: self.kind@, text: self.text@, assignments: self.assignments@ }
    }
}

/// The result for one claim.
#[derive(Debug)]
pub struct Finding {
    pub verdict: Verdict,
    /// The claim as the extraction produced it, in DSL form.
    pub claim: String,
    /// The claim in natural language, as the extraction described it.
    pub claim_statement: String,
    /// Rules and premises that actually decided this — a minimal core, not the whole
    /// policy.
    pub responsible: Vec<ConstraintRef>,
    /// Premises inside that core: the facts the answer silently relies on.
    pub unstated_assumptions: Vec<ConstraintRef>,
    /// A world satisfying the policy in which the claim is FALSE.
    pub counterexample: Option<Model>,
    /// A world satisfying the policy in which the claim is TRUE.
    pub supporting_example: Option<Model>,
    pub suggestions: Vec<Suggestion>,
    /// One sentence explaining the verdict.
    pub detail: String,
}

/// A finding by its contents; models are listed by name.
#[verifier::ext_equal]
pub struct FindingV {
    pub verdict: Verdict,
    pub claim: Seq<char>,
    pub claim_statement: Seq<char>,
    pub responsible: Seq<RefV>,
    pub unstated_assumptions: Seq<RefV>,
    pub counterexample: Option<Entries>,
    pub supporting_example: Option<Entries>,
    pub suggestions: Seq<SuggestionV>,
    pub detail: Seq<char>,
}

/// Named constraints by their contents.
pub open spec fn ref_views(v: Seq<ConstraintRef>) -> Seq<RefV> {
    Seq::new(v.len(), |i: int| v[i]@)
}

/// Suggestions by their contents.
pub open spec fn suggestion_views(v: Seq<Suggestion>) -> Seq<SuggestionV> {
    Seq::new(v.len(), |i: int| v[i]@)
}

/// The entries of a model, if there is one.
pub open spec fn entries_of(m: Option<Model>) -> Option<Entries> {
    match m {
        Some(m) => Some(m.values@),
        None => None,
    }
}

impl View for Finding {
    type V = FindingV;

    open spec fn view(&self) -> FindingV {
        FindingV {
            verdict: self.verdict,
            claim: self.claim@,
            claim_statement: self.claim_statement@,
            responsible: ref_views(self.responsible@),
            unstated_assumptions: ref_views(self.unstated_assumptions@),
            counterexample: entries_of(self.counterexample),
            supporting_example: entries_of(self.supporting_example),
            suggestions: suggestion_views(self.suggestions@),
            detail: self.detail@,
        }
    }
}

/// A finding with nothing but a verdict and an explanation.
pub open spec fn plain_finding(
    verdict: Verdict,
    claim: Seq<char>,
    statement: Seq<char>,
    detail: Seq<char>,
) -> FindingV {
    FindingV {
        verdict,
        claim,
        claim_statement: statement,
        responsible: Seq::empty(),
        unstated_assumptions: Seq::empty(),
        counterexample: None,
        supporting_example: None,
        suggestions: Seq::empty(),
        detail,
    }
}

impl Finding {
    /// A claim that could not be formalized.
    pub fn untranslatable(claim: String, statement: String, detail: String) -> (r: Finding)
        ensures
            r@ == plain_finding(Verdict::NoTranslations, claim@, statement@, detail@),
    {
        plain(Verdict::NoTranslations, claim.as_str(), statement.as_str(), detail)
    }
}

// ── What a verdict means ────────────────────────────────────────────────────────

/// Constraints by their contents.
pub open spec fn constraint_views(v: Seq<Constraint>) -> Seq<ConstraintV> {
    Seq::new(v.len(), |i: int| v[i]@)
}

/// The formulas of constraints.
pub open spec fn formulas(cs: Seq<ConstraintV>) -> Seq<ExprV> {
    Seq::new(cs.len(), |i: int| cs[i].expr)
}

/// What findings say of constraints.
pub open spec fn refs_of(cs: Seq<ConstraintV>) -> Seq<RefV> {
    Seq::new(cs.len(), |i: int| ref_of(cs[i]))
}

/// A question asked of the solver and an answer to it: the decision where time does not
/// matter, and else the decision or that the time limit passed. Either way the answer
/// tells the truth, and the formulas asked about are in normal form.
pub open spec fn asked(
    exact: bool,
    env: Sorts,
    lim: Limits,
    question: Seq<ExprV>,
    o: OutcomeV,
) -> bool {
    &&& soundness::truthful(env, question, o)
    &&& soundness::atoms_wf(question)
    &&& if exact {
        o == decision::decision(env, question, lim)
    } else {
        decision::answers(env, question, lim, o)
    }
}

/// The verdict by the answers to the three questions, in their order.
pub open spec fn verdict_of(base: OutcomeV, negated: OutcomeV, claimed: OutcomeV) -> Verdict {
    match base {
        OutcomeV::Unknown(_) => Verdict::TooComplex,
        OutcomeV::Unsat => Verdict::Impossible,
        OutcomeV::Sat(_) => if negated is Unknown || claimed is Unknown {
            Verdict::TooComplex
        } else if negated is Unsat {
            Verdict::Valid
        } else if claimed is Unsat {
            Verdict::Invalid
        } else {
            Verdict::Satisfiable
        },
    }
}

/// The constraints without the one at `i`, and with the formulas that must stay.
pub open spec fn trial(keep: Seq<ConstraintV>, i: int, extra: Seq<ExprV>) -> Seq<ExprV> {
    formulas(keep.remove(i)) + extra
}

/// Does deleting, from position `i` on, one constraint after the other whose remainder
/// is still unsatisfiable lead from `keep` to `core`?
pub open spec fn reduces_to(
    exact: bool,
    env: Sorts,
    lim: Limits,
    keep: Seq<ConstraintV>,
    i: int,
    extra: Seq<ExprV>,
    core: Seq<ConstraintV>,
) -> bool
    decreases keep.len() - i,
{
    if !(0 <= i < keep.len()) {
        core == keep
    } else {
        exists|o: OutcomeV| #[trigger]
            asked(exact, env, lim, trial(keep, i, extra), o) && if o is Unsat {
                reduces_to(exact, env, lim, keep.remove(i), i, extra, core)
            } else {
                reduces_to(exact, env, lim, keep, i + 1, extra, core)
            }
    }
}

/// The constraints that came from the question.
pub open spec fn premises(cs: Seq<ConstraintV>) -> Seq<ConstraintV>
    decreases cs.len(),
{
    if cs.len() == 0 {
        cs
    } else if cs.last().origin == Origin::Premise {
        premises(cs.drop_last()).push(cs.last())
    } else {
        premises(cs.drop_last())
    }
}

/// The formulas of the constraints that came from the policy.
pub open spec fn rule_formulas(cs: Seq<ConstraintV>) -> Seq<ExprV>
    decreases cs.len(),
{
    if cs.len() == 0 {
        Seq::empty()
    } else if cs.last().origin == Origin::Rule {
        rule_formulas(cs.drop_last()).push(cs.last().expr)
    } else {
        rule_formulas(cs.drop_last())
    }
}

/// Are all the constraints from the policy?
pub open spec fn all_rules(cs: Seq<ConstraintV>) -> bool {
    forall|i: int| 0 <= i < cs.len() ==> (#[trigger] cs[i]).origin == Origin::Rule
}

/// The values of `a` that `b` does not share.
pub open spec fn differing(a: Entries, b: Entries) -> Entries
    decreases a.len(),
{
    if a.len() == 0 {
        a
    } else if names::lookup(b, a.last().0) == Some(a.last().1) {
        differing(a.drop_last(), b)
    } else {
        differing(a.drop_last(), b).push(a.last())
    }
}

/// The values of the variables in a list.
pub open spec fn restricted(a: Entries, relevant: Seq<Seq<char>>) -> Entries
    decreases a.len(),
{
    if a.len() == 0 {
        a
    } else if relevant.contains(a.last().0) {
        restricted(a.drop_last(), relevant).push(a.last())
    } else {
        restricted(a.drop_last(), relevant)
    }
}

/// The variables a finding is actually about: those named in the claim, plus those
/// named by the constraints that decided it.
pub open spec fn relevant(claim: ExprV, core: Seq<ConstraintV>) -> Seq<Seq<char>> {
    logic::vars_of(claim) + logic::vars_of_all(formulas(core))
}

/// The names of entries.
pub open spec fn names_of(a: Entries) -> Seq<Seq<char>> {
    Seq::new(a.len(), |i: int| a[i].0)
}

/// Entries as `name = value`.
pub open spec fn equations(a: Entries) -> Seq<Seq<char>> {
    Seq::new(a.len(), |i: int| a[i].0 + " = "@ + solver::rendered(a[i].1))
}

/// The statements of named constraints.
pub open spec fn statements(v: Seq<RefV>) -> Seq<Seq<char>> {
    Seq::new(v.len(), |i: int| v[i].statement)
}

/// What is said where the solver gave up.
pub open spec fn undecided(why: Seq<char>) -> Seq<char> {
    "The solver could not decide this in budget: "@ + why + "."@
}

/// What is said of a contradiction.
pub open spec fn impossible_detail(core: Seq<ConstraintV>) -> Seq<char> {
    if all_rules(core) {
        "The policy contradicts itself: the rules below cannot all hold at once, so nothing can be proved or disproved against it."@
    } else {
        "The question describes a situation the policy rules out, so no claim about it can be checked."@
    }
}

/// What is said of a proved claim.
pub open spec fn valid_detail(n: nat) -> Seq<char> {
    if n == 0 {
        "This claim is true no matter what the policy says."@
    } else {
        "The policy proves this claim. "@ + text::digits(n) + " constraint(s) were needed."@
    }
}

/// What is said of a contradicted claim.
pub open spec fn invalid_detail(n: nat) -> Seq<char> {
    "The policy contradicts this claim: "@ + text::digits(n) + " constraint(s) rule it out."@
}

/// What is said of a claim that is open.
pub open spec fn open_detail() -> Seq<char> {
    "The policy neither proves nor disproves this claim — it is consistent either way. Usually a fact is missing rather than a rule."@
}

/// What is suggested of a claim that leans on premises.
pub open spec fn assumption_suggestions(unstated: Seq<RefV>) -> Seq<SuggestionV> {
    if unstated.len() == 0 {
        Seq::empty()
    } else {
        seq![
            SuggestionV {
                kind: "unstated_assumption"@,
                text: "The answer is only correct because of unstated assumptions: "@
                    + text::joined(statements(unstated), "; "@) + "."@,
                assignments: Seq::empty(),
            },
        ]
    }
}

/// What is suggested of an open claim, by the values that tell the two worlds apart.
pub open spec fn open_suggestions(values: Entries) -> Seq<SuggestionV> {
    if values.len() == 0 {
        Seq::empty()
    } else {
        seq![
            SuggestionV {
                kind: "undetermined_variable"@,
                text: "Pin down "@ + text::joined(names_of(values), ", "@) + " to settle this claim."@,
                assignments: values,
            },
        ]
    }
}

/// What is suggested of a contradicted claim, by the values that would have to change.
pub open spec fn repair_of(values: Entries) -> Seq<SuggestionV> {
    if values.len() == 0 {
        Seq::empty()
    } else {
        seq![
            SuggestionV {
                kind: "would_be_valid_if"@,
                text: "The answer would be correct only if "@ + text::joined(
                    equations(values),
                    " and "@,
                ) + "."@,
                assignments: values,
            },
        ]
    }
}

/// What is suggested of a claim that contradicts the policy itself.
pub open spec fn never_valid() -> Seq<SuggestionV> {
    seq![
        SuggestionV {
            kind: "never_valid"@,
            text: "This claim contradicts the policy itself, not just the details of this question — no set of facts would make it correct."@,
            assignments: Seq::empty(),
        },
    ]
}

/// Is the list of entries that of the model, sorted by name?
pub open spec fn lists(a: Entries, m: Map<Seq<char>, ValueV>) -> bool {
    names::ordered(a) && names::as_map(a) == m
}

/// Are these the suggestions for a contradicted claim? They come from a model of the
/// rules and the claim, without the premises.
pub open spec fn repairs(
    exact: bool,
    env: Sorts,
    lim: Limits,
    cs: Seq<ConstraintV>,
    claim: ExprV,
    counterexample: Entries,
    about: Seq<Seq<char>>,
    out: Seq<SuggestionV>,
) -> bool {
    let probe = rule_formulas(cs).push(claim);
    exists|o: OutcomeV| #[trigger]
        asked(exact, env, lim, probe, o) && match o {
            OutcomeV::Sat(m) => exists|a: Entries| #[trigger]
                lists(a, m) && out == repair_of(restricted(differing(a, counterexample), about)),
            OutcomeV::Unsat => out == never_valid(),
            OutcomeV::Unknown(_) => out.len() == 0,
        }
}

/// Is that the finding on a claim, given the answers to the three questions?
pub open spec fn finding_by(
    exact: bool,
    env: Sorts,
    lim: Limits,
    cs: Seq<ConstraintV>,
    claim: ExprV,
    base: OutcomeV,
    negated: OutcomeV,
    claimed: OutcomeV,
    f: FindingV,
) -> bool {
    match verdict_of(base, negated, claimed) {
        Verdict::TooComplex => {
            let why = if base is Unknown {
                base->Unknown_0
            } else if negated is Unknown {
                negated->Unknown_0
            } else {
                claimed->Unknown_0
            };
            f == plain_finding(Verdict::TooComplex, f.claim, f.claim_statement, undecided(why))
        },
        Verdict::Impossible => exists|core: Seq<ConstraintV>| #[trigger]
            reduces_to(exact, env, lim, cs, 0, Seq::empty(), core) && f == (FindingV {
                responsible: refs_of(core),
                ..plain_finding(
                    Verdict::Impossible,
                    f.claim,
                    f.claim_statement,
                    impossible_detail(core),
                )
            }),
        Verdict::Valid => exists|core: Seq<ConstraintV>| #[trigger]
            reduces_to(exact, env, lim, cs, 0, seq![logic::negation(claim)], core) && f == (
            FindingV {
                responsible: refs_of(core),
                unstated_assumptions: refs_of(premises(core)),
                supporting_example: f.supporting_example,
                suggestions: assumption_suggestions(refs_of(premises(core))),
                ..plain_finding(
                    Verdict::Valid,
                    f.claim,
                    f.claim_statement,
                    valid_detail(core.len()),
                )
            }) && match claimed {
                OutcomeV::Sat(m) => f.supporting_example matches Some(a) && lists(a, m),
                _ => f.supporting_example is None,
            },
        Verdict::Invalid => exists|core: Seq<ConstraintV>| #[trigger]
            reduces_to(exact, env, lim, cs, 0, seq![claim], core) && f == (FindingV {
                responsible: refs_of(core),
                counterexample: f.counterexample,
                suggestions: f.suggestions,
                ..plain_finding(
                    Verdict::Invalid,
                    f.claim,
                    f.claim_statement,
                    invalid_detail(core.len()),
                )
            }) && (f.counterexample matches Some(a) && lists(a, base->Sat_0) && repairs(
                exact,
                env,
                lim,
                cs,
                claim,
                a,
                relevant(claim, core),
                f.suggestions,
            )),
        _ => {
            &&& f == (FindingV {
                counterexample: f.counterexample,
                supporting_example: f.supporting_example,
                suggestions: f.suggestions,
                ..plain_finding(Verdict::Satisfiable, f.claim, f.claim_statement, open_detail())
            })
            &&& f.supporting_example matches Some(yes) && lists(yes, claimed->Sat_0)
            &&& f.counterexample matches Some(no) && lists(no, negated->Sat_0)
            &&& f.suggestions == open_suggestions(
                restricted(
                    differing(f.supporting_example->0, f.counterexample->0),
                    relevant(claim, Seq::empty()),
                ),
            )
        },
    }
}

/// Is that the finding on a claim? The three questions are asked in order, a later one
/// only where the earlier ones leave it open.
pub open spec fn found(
    exact: bool,
    env: Sorts,
    lim: Limits,
    cs: Seq<ConstraintV>,
    claim: ExprV,
    f: FindingV,
) -> bool {
    exists|base: OutcomeV, negated: OutcomeV, claimed: OutcomeV| #[trigger]
        finding_by(exact, env, lim, cs, claim, base, negated, claimed, f) && asked(
            exact,
            env,
            lim,
            formulas(cs),
            base,
        ) && (base is Sat ==> asked(
            exact,
            env,
            lim,
            formulas(cs).push(logic::negation(claim)),
            negated,
        )) && (base is Sat && !(negated is Unknown) ==> asked(
            exact,
            env,
            lim,
            formulas(cs).push(claim),
            claimed,
        ))
}

// ── Asking ──────────────────────────────────────────────────────────────────────

/// Ask the solver, by the clock or not.
pub(crate) fn ask(env: &Env, question: &Vec<Expr>, budget: &Budget, timed: bool) -> (r: Outcome)
    ensures
        asked(!timed, env@, budget.limits(), logic::exprs(question@), r@),
{
    if timed {
        decide(env, question.as_slice(), budget)
    } else {
        decide_untimed(env, question.as_slice(), budget)
    }
}

/// The chosen constraints.
pub open spec fn picked(cs: Seq<ConstraintV>, keep: Seq<usize>) -> Seq<ConstraintV> {
    Seq::new(keep.len(), |i: int| cs[keep[i] as int])
}

/// The formulas of the constraints.
pub(crate) fn base_formulas(constraints: &[Constraint]) -> (r: Vec<Expr>)
    ensures
        logic::exprs(r@) == formulas(constraint_views(constraints@)),
{
    let mut out: Vec<Expr> = Vec::new();
    let n = constraints.len();
    let mut i: usize = 0;
    while i < n
        invariant
            n == constraints@.len(),
            i <= n,
            out@.len() == i,
            forall|k: int| 0 <= k < i ==> (#[trigger] out@[k])@ == constraints@[k].expr@,
        decreases n - i,
    {
        out.push(constraints[i].expr.clone());
        i += 1;
    }
    assert(logic::exprs(out@) =~= formulas(constraint_views(constraints@)));
    out
}

/// The formulas with one more.
fn with_formula(base: &Vec<Expr>, e: Expr) -> (r: Vec<Expr>)
    ensures
        logic::exprs(r@) == logic::exprs(base@).push(e@),
{
    let mut out: Vec<Expr> = Vec::new();
    let mut i: usize = 0;
    while i < base.len()
        invariant
            i <= base@.len(),
            out@.len() == i,
            forall|k: int| 0 <= k < i ==> (#[trigger] out@[k])@ == base@[k]@,
        decreases base@.len() - i,
    {
        out.push(base[i].clone());
        i += 1;
    }
    out.push(e);
    assert(logic::exprs(out@) =~= logic::exprs(base@).push(e@));
    out
}

/// The formulas of the chosen constraints but the one at `skip`, and those that must
/// stay.
fn trial_formulas(
    constraints: &[Constraint],
    keep: &Vec<usize>,
    skip: usize,
    extra: &Vec<Expr>,
) -> (r: Vec<Expr>)
    requires
        skip < keep@.len(),
        forall|k: int| 0 <= k < keep@.len() ==> (#[trigger] keep@[k]) < constraints@.len(),
    ensures
        logic::exprs(r@) == trial(
            picked(constraint_views(constraints@), keep@),
            skip as int,
            logic::exprs(extra@),
        ),
{
    let ghost cs = constraint_views(constraints@);
    let ghost kept = picked(cs, keep@);
    let ghost rest = kept.remove(skip as int);
    let mut out: Vec<Expr> = Vec::new();
    let mut i: usize = 0;
    while i < keep.len()
        invariant
            i <= keep@.len(),
            skip < keep@.len(),
            cs == constraint_views(constraints@),
            kept == picked(cs, keep@),
            rest == kept.remove(skip as int),
            forall|k: int| 0 <= k < keep@.len() ==> (#[trigger] keep@[k]) < constraints@.len(),
            out@.len() == (if i <= skip {
                i as int
            } else {
                i - 1
            }),
            forall|k: int| 0 <= k < out@.len() ==> (#[trigger] out@[k])@ == rest[k].expr,
        decreases keep@.len() - i,
    {
        if i != skip {
            out.push(constraints[keep[i]].expr.clone());
        }
        i += 1;
    }
    let ghost front = out@;
    let mut j: usize = 0;
    while j < extra.len()
        invariant
            j <= extra@.len(),
            out@.len() == front.len() + j,
            forall|k: int| 0 <= k < front.len() ==> (#[trigger] out@[k]) == front[k],
            forall|k: int|
                front.len() <= k < out@.len() ==> (#[trigger] out@[k])@ == extra@[k
                    - front.len()]@,
        decreases extra@.len() - j,
    {
        out.push(extra[j].clone());
        j += 1;
    }
    assert(logic::exprs(out@) =~= formulas(rest) + logic::exprs(extra@));
    out
}

/// Deletion-based minimal unsatisfiable core over the labelled constraints, as
/// positions.
///
/// `extra` holds the unlabelled formulas that must stay (the claim, or its negation).
///
/// A constraint is dropped only when the remainder is *provably* still unsatisfiable.
/// If a probe returns `Unknown`, the constraint is kept: the core may then be larger
/// than minimal, but it is never wrong — the opposite trade would let a budget
/// timeout silently delete the rule that actually explained the finding.
pub fn minimal_core(
    env: &Env,
    constraints: &[Constraint],
    extra: &Vec<Expr>,
    budget: &Budget,
    timed: bool,
) -> (r: Vec<usize>)
    ensures
        forall|k: int| 0 <= k < r@.len() ==> (#[trigger] r@[k]) < constraints@.len(),
        forall|j: int, k: int| 0 <= j < k < r@.len() ==> #[trigger] r@[j] < #[trigger] r@[k],
        reduces_to(
            !timed,
            env@,
            budget.limits(),
            constraint_views(constraints@),
            0,
            logic::exprs(extra@),
            picked(constraint_views(constraints@), r@),
        ),
        !timed ==> irreducible(
            env@,
            budget.limits(),
            constraint_views(constraints@),
            logic::exprs(extra@),
            picked(constraint_views(constraints@), r@),
        ),
{
    let ghost exact = !timed;
    let ghost cs = constraint_views(constraints@);
    let ghost lim = budget.limits();
    let ghost ex = logic::exprs(extra@);
    let mut keep: Vec<usize> = Vec::new();
    let n = constraints.len();
    let mut i: usize = 0;
    while i < n
        invariant
            i <= n,
            n == constraints@.len(),
            keep@.len() == i,
            forall|k: int| 0 <= k < i ==> (#[trigger] keep@[k]) == k,
        decreases n - i,
    {
        keep.push(i);
        i += 1;
    }
    assert(picked(cs, keep@) =~= cs);
    let mut idx: usize = 0;
    while idx < keep.len()
        invariant
            idx <= keep@.len(),
            cs == constraint_views(constraints@),
            lim == budget.limits(),
            exact == !timed,
            ex == logic::exprs(extra@),
            forall|k: int| 0 <= k < keep@.len() ==> (#[trigger] keep@[k]) < constraints@.len(),
            forall|j: int, k: int|
                0 <= j < k < keep@.len() ==> #[trigger] keep@[j] < #[trigger] keep@[k],
            forall|core: Seq<ConstraintV>| #[trigger]
                reduces_to(exact, env@, lim, picked(cs, keep@), idx as int, ex, core)
                    ==> reduces_to(exact, env@, lim, cs, 0, ex, core),
        decreases keep@.len() - idx,
    {
        let ghost kept = picked(cs, keep@);
        let ghost before = keep@;
        let question = trial_formulas(constraints, &keep, idx, extra);
        let outcome = ask(env, &question, budget, timed);
        let ghost o = outcome@;
        assert(asked(exact, env@, lim, trial(kept, idx as int, ex), o));
        if outcome.is_unsat() {
            keep.remove(idx);
            proof {
                assert(picked(cs, keep@) =~= kept.remove(idx as int));
                assert forall|k: int| 0 <= k < keep@.len() implies (#[trigger] keep@[k])
                    < constraints@.len() by {
                    if k < idx {
                        assert(keep@[k] == before[k]);
                    } else {
                        assert(keep@[k] == before[k + 1]);
                    }
                }
                assert forall|core: Seq<ConstraintV>| #[trigger]
                    reduces_to(
                        exact,
                        env@,
                        lim,
                        picked(cs, keep@),
                        idx as int,
                        ex,
                        core,
                    ) implies reduces_to(exact, env@, lim, cs, 0, ex, core) by {
                    assert(reduces_to(exact, env@, lim, kept, idx as int, ex, core));
                }
            }
        } else {
            idx += 1;
            proof {
                assert forall|core: Seq<ConstraintV>| #[trigger]
                    reduces_to(
                        exact,
                        env@,
                        lim,
                        picked(cs, keep@),
                        idx as int,
                        ex,
                        core,
                    ) implies reduces_to(exact, env@, lim, cs, 0, ex, core) by {
                    assert(reduces_to(exact, env@, lim, kept, idx - 1, ex, core));
                }
            }
        }
    }
    assert(reduces_to(
        exact,
        env@,
        lim,
        picked(cs, keep@),
        idx as int,
        ex,
        picked(cs, keep@),
    ));
    proof {
        if exact {
            lemma_core_asked_again(env@, lim, cs, ex, picked(cs, keep@));
        }
    }
    keep
}

/// What findings say of the chosen constraints.
fn refs(constraints: &[Constraint], keep: &Vec<usize>) -> (r: Vec<ConstraintRef>)
    requires
        forall|k: int| 0 <= k < keep@.len() ==> (#[trigger] keep@[k]) < constraints@.len(),
    ensures
        ref_views(r@) == refs_of(picked(constraint_views(constraints@), keep@)),
{
    let ghost kept = picked(constraint_views(constraints@), keep@);
    let mut out: Vec<ConstraintRef> = Vec::new();
    let mut i: usize = 0;
    while i < keep.len()
        invariant
            i <= keep@.len(),
            kept == picked(constraint_views(constraints@), keep@),
            forall|k: int| 0 <= k < keep@.len() ==> (#[trigger] keep@[k]) < constraints@.len(),
            out@.len() == i,
            forall|k: int| 0 <= k < i ==> (#[trigger] out@[k])@ == ref_of(kept[k]),
        decreases keep@.len() - i,
    {
        out.push(ConstraintRef::of(&constraints[keep[i]]));
        i += 1;
    }
    assert(ref_views(out@) =~= refs_of(kept));
    out
}

/// What findings say of the chosen premises.
fn premise_refs(constraints: &[Constraint], keep: &Vec<usize>) -> (r: Vec<ConstraintRef>)
    requires
        forall|k: int| 0 <= k < keep@.len() ==> (#[trigger] keep@[k]) < constraints@.len(),
    ensures
        ref_views(r@) == refs_of(premises(picked(constraint_views(constraints@), keep@))),
{
    let ghost kept = picked(constraint_views(constraints@), keep@);
    let mut out: Vec<ConstraintRef> = Vec::new();
    let mut i: usize = 0;
    assert(ref_views(out@) =~= refs_of(premises(kept.take(0))));
    while i < keep.len()
        invariant
            i <= keep@.len(),
            kept == picked(constraint_views(constraints@), keep@),
            forall|k: int| 0 <= k < keep@.len() ==> (#[trigger] keep@[k]) < constraints@.len(),
            ref_views(out@) == refs_of(premises(kept.take(i as int))),
        decreases keep@.len() - i,
    {
        let ghost before = out@;
        let ghost front = premises(kept.take(i as int));
        proof {
            assert(kept.take(i + 1).drop_last() =~= kept.take(i as int));
            assert(kept.take(i + 1).last() == kept[i as int]);
        }
        let c = &constraints[keep[i]];
        match c.origin {
            Origin::Premise => {
                out.push(ConstraintRef::of(c));
                assert(ref_views(out@) =~= ref_views(before).push(ref_of(c@)));
                assert(refs_of(front.push(c@)) =~= refs_of(front).push(ref_of(c@)));
            },
            Origin::Rule => {},
        }
        i += 1;
    }
    assert(kept.take(i as int) =~= kept);
    out
}

/// Are all the chosen constraints from the policy?
fn only_rules(constraints: &[Constraint], keep: &Vec<usize>) -> (b: bool)
    requires
        forall|k: int| 0 <= k < keep@.len() ==> (#[trigger] keep@[k]) < constraints@.len(),
    ensures
        b == all_rules(picked(constraint_views(constraints@), keep@)),
{
    let ghost kept = picked(constraint_views(constraints@), keep@);
    let mut i: usize = 0;
    while i < keep.len()
        invariant
            i <= keep@.len(),
            kept == picked(constraint_views(constraints@), keep@),
            forall|k: int| 0 <= k < keep@.len() ==> (#[trigger] keep@[k]) < constraints@.len(),
            forall|k: int| 0 <= k < i ==> (#[trigger] kept[k]).origin == Origin::Rule,
        decreases keep@.len() - i,
    {
        assert(kept[i as int] == constraints@[keep@[i as int] as int]@);
        match constraints[keep[i]].origin {
            Origin::Rule => {},
            Origin::Premise => {
                return false;
            },
        }
        i += 1;
    }
    true
}

/// The variables a finding is actually about: those named in the claim, plus those
/// named by the constraints that decided it.
///
/// A model assigns EVERY variable the constraints mention, and two models can differ
/// on any of them that the constraints leave free. Reporting those differences
/// wholesale is how a correct finding acquires a wrong-sounding sentence, so the
/// suggestions are narrowed to this set.
fn relevant_vars(claim: &Expr, constraints: &[Constraint], core: &Vec<usize>) -> (r: Vec<String>)
    requires
        forall|k: int| 0 <= k < core@.len() ==> (#[trigger] core@[k]) < constraints@.len(),
    ensures
        text::texts(r@) == relevant(claim@, picked(constraint_views(constraints@), core@)),
{
    let ghost kept = picked(constraint_views(constraints@), core@);
    let ghost fs = formulas(kept);
    let mut out: Vec<String> = Vec::new();
    claim.vars(&mut out);
    assert(text::texts(out@) =~= logic::vars_of(claim@));
    let mut i: usize = 0;
    assert(text::texts(out@) =~= logic::vars_of(claim@) + logic::vars_of_all(fs.take(0)));
    while i < core.len()
        invariant
            i <= core@.len(),
            kept == picked(constraint_views(constraints@), core@),
            fs == formulas(kept),
            forall|k: int| 0 <= k < core@.len() ==> (#[trigger] core@[k]) < constraints@.len(),
            text::texts(out@) == logic::vars_of(claim@) + logic::vars_of_all(fs.take(i as int)),
        decreases core@.len() - i,
    {
        proof {
            assert(fs.take(i + 1).drop_last() =~= fs.take(i as int));
            assert(fs.take(i + 1).last() == fs[i as int]);
        }
        let ghost before = text::texts(out@);
        constraints[core[i]].expr.vars(&mut out);
        proof {
            let (a, b) = (logic::vars_of_all(fs.take(i as int)), logic::vars_of(fs[i as int]));
            assert(logic::vars_of(claim@) + a + b =~= logic::vars_of(claim@) + (a + b));
        }
        i += 1;
    }
    assert(fs.take(i as int) =~= fs);
    out
}

/// Are the two values the same?
fn same_value(a: &Value, b: &Value) -> (r: bool)
    ensures
        r == (a@ == b@),
{
    match (a, b) {
        (Value::Bool(x), Value::Bool(y)) => *x == *y,
        (Value::Text(x), Value::Text(y)) => same(x.as_str(), y.as_str()),
        (Value::Number(x), Value::Number(y)) => same(x.as_str(), y.as_str()),
        _ => false,
    }
}

/// Variables the two models disagree about, with the values of the first.
fn diff_models(a: &Model, b: &Model) -> (r: NameMap<Value>)
    ensures
        r@ == differing(a.values@, b.values@),
{
    let ghost all = a.values@;
    let mut out: NameMap<Value> = NameMap::new();
    let n = a.values.len();
    let mut i: usize = 0;
    while i < n
        invariant
            n == all.len(),
            i <= n,
            all == a.values@,
            names::ordered(all),
            out@ == differing(all.take(i as int), b.values@),
            forall|k: int, l: int|
                0 <= k < out@.len() && i <= l < n ==> text::text_less(
                    (#[trigger] out@[k]).0,
                    (#[trigger] all[l]).0,
                ),
        decreases n - i,
    {
        proof {
            assert(all.take(i + 1).drop_last() =~= all.take(i as int));
            assert(all.take(i + 1).last() == all[i as int]);
        }
        let name = a.values.name_at(i);
        let value = a.values.value_at(i);
        let shared = match b.values.get(name.as_str()) {
            Some(other) => same_value(other, value),
            None => false,
        };
        if !shared {
            out.push(name.clone(), value.clone());
        }
        i += 1;
    }
    assert(all.take(n as int) =~= all);
    out
}

/// The values of the variables in a list.
fn keep_relevant(a: &NameMap<Value>, about: &Vec<String>) -> (r: NameMap<Value>)
    ensures
        r@ == restricted(a@, text::texts(about@)),
{
    let ghost all = a@;
    let mut out: NameMap<Value> = NameMap::new();
    let n = a.len();
    let mut i: usize = 0;
    while i < n
        invariant
            n == all.len(),
            i <= n,
            all == a@,
            names::ordered(all),
            out@ == restricted(all.take(i as int), text::texts(about@)),
            forall|k: int, l: int|
                0 <= k < out@.len() && i <= l < n ==> text::text_less(
                    (#[trigger] out@[k]).0,
                    (#[trigger] all[l]).0,
                ),
        decreases n - i,
    {
        proof {
            assert(all.take(i + 1).drop_last() =~= all.take(i as int));
            assert(all.take(i + 1).last() == all[i as int]);
        }
        if holds_text(about, a.name_at(i).as_str()) {
            out.push(a.name_at(i).clone(), a.value_at(i).clone());
        }
        i += 1;
    }
    assert(all.take(n as int) =~= all);
    out
}

/// The formulas of the rules, and the claim.
fn probe_formulas(constraints: &[Constraint], claim: &Expr) -> (r: Vec<Expr>)
    ensures
        logic::exprs(r@) == rule_formulas(constraint_views(constraints@)).push(claim@),
{
    let ghost cs = constraint_views(constraints@);
    let mut out: Vec<Expr> = Vec::new();
    let n = constraints.len();
    let mut i: usize = 0;
    assert(logic::exprs(out@) =~= rule_formulas(cs.take(0)));
    while i < n
        invariant
            n == constraints@.len(),
            i <= n,
            cs == constraint_views(constraints@),
            logic::exprs(out@) == rule_formulas(cs.take(i as int)),
        decreases n - i,
    {
        proof {
            assert(cs.take(i + 1).drop_last() =~= cs.take(i as int));
            assert(cs.take(i + 1).last() == cs[i as int]);
        }
        let ghost before = out@;
        match constraints[i].origin {
            Origin::Rule => {
                out.push(constraints[i].expr.clone());
                assert(logic::exprs(out@) =~= logic::exprs(before).push(cs[i as int].expr));
            },
            Origin::Premise => {},
        }
        i += 1;
    }
    assert(cs.take(n as int) =~= cs);
    let ghost before = out@;
    out.push(claim.clone());
    assert(logic::exprs(out@) =~= logic::exprs(before).push(claim@));
    out
}

/// Entries as `name = value`.
fn equation_texts(a: &NameMap<Value>) -> (r: Vec<String>)
    ensures
        text::texts(r@) == equations(a@),
{
    let mut out: Vec<String> = Vec::new();
    let n = a.len();
    let mut i: usize = 0;
    while i < n
        invariant
            n == a@.len(),
            i <= n,
            out@.len() == i,
            forall|k: int| 0 <= k < i ==> (#[trigger] out@[k])@ == equations(a@)[k],
        decreases n - i,
    {
        let value = a.value_at(i).render();
        out.push(cat3(a.name_at(i).as_str(), " = ", value.as_str()));
        i += 1;
    }
    assert(text::texts(out@) =~= equations(a@));
    out
}

/// The names of entries.
fn name_texts(a: &NameMap<Value>) -> (r: Vec<String>)
    ensures
        text::texts(r@) == names_of(a@),
{
    let mut out: Vec<String> = Vec::new();
    let n = a.len();
    let mut i: usize = 0;
    while i < n
        invariant
            n == a@.len(),
            i <= n,
            out@.len() == i,
            forall|k: int| 0 <= k < i ==> (#[trigger] out@[k])@ == a@[k].0,
        decreases n - i,
    {
        out.push(a.name_at(i).clone());
        i += 1;
    }
    assert(text::texts(out@) =~= names_of(a@));
    out
}

/// The statements of named constraints.
fn statement_texts(v: &Vec<ConstraintRef>) -> (r: Vec<String>)
    ensures
        text::texts(r@) == statements(ref_views(v@)),
{
    let mut out: Vec<String> = Vec::new();
    let mut i: usize = 0;
    while i < v.len()
        invariant
            i <= v@.len(),
            out@.len() == i,
            forall|k: int| 0 <= k < i ==> (#[trigger] out@[k])@ == v@[k].statement@,
        decreases v@.len() - i,
    {
        out.push(v[i].statement.clone());
        i += 1;
    }
    assert(text::texts(out@) =~= statements(ref_views(v@)));
    out
}

/// For an invalid claim: what would have had to be different?
///
/// Solve the policy *rules* together with the claim, dropping the premises taken from
/// the question. If that is satisfiable, the claim is not nonsense — it just does not
/// fit this case, and the difference between that world and the counterexample is
/// exactly the set of conditions under which the answer would have been right.
fn repair_suggestions(
    env: &Env,
    constraints: &[Constraint],
    claim: &Expr,
    counterexample: &Model,
    about: &Vec<String>,
    budget: &Budget,
    timed: bool,
) -> (r: Vec<Suggestion>)
    ensures
        repairs(
            !timed,
            env@,
            budget.limits(),
            constraint_views(constraints@),
            claim@,
            counterexample.values@,
            text::texts(about@),
            suggestion_views(r@),
        ),
{
    let ghost cs = constraint_views(constraints@);
    let ghost probe = rule_formulas(cs).push(claim@);
    let question = probe_formulas(constraints, claim);
    let outcome = ask(env, &question, budget, timed);
    assert(asked(!timed, env@, budget.limits(), probe, outcome@));
    let mut out: Vec<Suggestion> = Vec::new();
    match &outcome {
        Outcome::Sat(model) => {
            let all = diff_models(model, counterexample);
            let assignments = keep_relevant(&all, about);
            let ghost values = assignments@;
            proof {
                use_type_invariant(&model.values);
                model.values.lemma_wf();
                assert(lists(model.values@, model@));
                assert(values == restricted(
                    differing(model.values@, counterexample.values@),
                    text::texts(about@),
                ));
            }
            if !assignments.is_empty() {
                let rendered = equation_texts(&assignments);
                let conditions = join(&rendered, " and ");
                let text = cat3(
                    "The answer would be correct only if ",
                    conditions.as_str(),
                    ".",
                );
                out.push(Suggestion { kind: "would_be_valid_if".to_owned(), text, assignments });
            }
            assert(suggestion_views(out@) =~= repair_of(values));
            assert(exists|a: Entries| #[trigger]
                lists(a, outcome@->Sat_0) && suggestion_views(out@) == repair_of(
                    restricted(differing(a, counterexample.values@), text::texts(about@)),
                )) by {
                assert(lists(model.values@, outcome@->Sat_0));
            }
        },
        Outcome::Unsat => {
            out.push(
                Suggestion {
                    kind: "never_valid".to_owned(),
                    text:
                        "This claim contradicts the policy itself, not just the details of this question — no set of facts would make it correct.".to_owned(),
                    assignments: NameMap::new(),
                },
            );
            assert(suggestion_views(out@) =~= never_valid());
        },
        Outcome::Unknown(_) => {},
    }
    out
}

/// A finding with nothing but a verdict and an explanation.
fn plain(verdict: Verdict, claim: &str, statement: &str, detail: String) -> (r: Finding)
    ensures
        r@ == plain_finding(verdict, claim@, statement@, detail@),
        r.responsible@.len() == 0,
        r.unstated_assumptions@.len() == 0,
        r.suggestions@.len() == 0,
        r.counterexample is None,
        r.supporting_example is None,
{
    let r = Finding {
        verdict,
        claim: claim.to_owned(),
        claim_statement: statement.to_owned(),
        responsible: Vec::new(),
        unstated_assumptions: Vec::new(),
        counterexample: None,
        supporting_example: None,
        suggestions: Vec::new(),
        detail,
    };
    assert(ref_views(r.responsible@) =~= Seq::empty());
    assert(suggestion_views(r.suggestions@) =~= Seq::empty());
    r
}

/// The model of an outcome.
fn model_copy(o: &Outcome) -> (r: Option<Model>)
    ensures
        match r {
            Some(m) => o@ == OutcomeV::Sat(m@) && lists(m.values@, o@->Sat_0),
            None => !(o@ is Sat),
        },
{
    match o {
        Outcome::Sat(m) => {
            let copy = m.clone();
            proof {
                use_type_invariant(&copy.values);
                copy.values.lemma_wf();
            }
            Some(copy)
        },
        _ => None,
    }
}

/// What is said where the solver gave up.
fn undecided_text(why: &str) -> (r: String)
    ensures
        r@ == undecided(why@),
{
    cat3("The solver could not decide this in budget: ", why, ".")
}

/// Decide one claim against the policy and premises, by the clock or not.
fn check(
    env: &Env,
    constraints: &[Constraint],
    claim_expr: &Expr,
    claim_src: &str,
    claim_statement: &str,
    budget: &Budget,
    timed: bool,
) -> (r: Finding)
    ensures
        r.claim@ == claim_src@,
        r.claim_statement@ == claim_statement@,
        found(!timed, env@, budget.limits(), constraint_views(constraints@), claim_expr@, r@),
{
    let ghost exact = !timed;
    let ghost lim = budget.limits();
    let ghost cs = constraint_views(constraints@);
    let ghost claim = claim_expr@;
    let base = base_formulas(constraints);
    // ── 1. Does the world described even exist? ───────────────────────────────
    let base_outcome = ask(env, &base, budget, timed);
    let counterexample = match &base_outcome {
        Outcome::Unknown(why) => {
            let f = plain(
                Verdict::TooComplex,
                claim_src,
                claim_statement,
                undecided_text(why.as_str()),
            );
            assert(finding_by(
                exact,
                env@,
                lim,
                cs,
                claim,
                base_outcome@,
                OutcomeV::Unsat,
                OutcomeV::Unsat,
                f@,
            ));
            return f;
        },
        Outcome::Unsat => {
            let extra: Vec<Expr> = Vec::new();
            let core = minimal_core(env, constraints, &extra, budget, timed);
            assert(logic::exprs(extra@) =~= Seq::empty());
            let detail = if only_rules(constraints, &core) {
                "The policy contradicts itself: the rules below cannot all hold at once, so nothing can be proved or disproved against it."
            } else {
                "The question describes a situation the policy rules out, so no claim about it can be checked."
            };
            let mut f = plain(
                Verdict::Impossible,
                claim_src,
                claim_statement,
                detail.to_owned(),
            );
            f.responsible = refs(constraints, &core);
            proof {
                let c = picked(cs, core@);
                assert(reduces_to(exact, env@, lim, cs, 0, Seq::empty(), c));
                assert(finding_by(
                    exact,
                    env@,
                    lim,
                    cs,
                    claim,
                    base_outcome@,
                    OutcomeV::Unsat,
                    OutcomeV::Unsat,
                    f@,
                ));
            }
            return f;
        },
        Outcome::Sat(m) => {
            let copy = m.clone();
            proof {
                use_type_invariant(&copy.values);
                copy.values.lemma_wf();
            }
            copy
        },
    };
    // ── 2. Can the claim fail? ────────────────────────────────────────────────
    let negation = claim_expr.clone().not();
    let with_negated = with_formula(&base, claim_expr.clone().not());
    let negated_outcome = ask(env, &with_negated, budget, timed);
    if let Outcome::Unknown(why) = &negated_outcome {
        let f = plain(
            Verdict::TooComplex,
            claim_src,
            claim_statement,
            undecided_text(why.as_str()),
        );
        assert(finding_by(
            exact,
            env@,
            lim,
            cs,
            claim,
            base_outcome@,
            negated_outcome@,
            OutcomeV::Unsat,
            f@,
        ));
        return f;
    }
    // ── 3. Can the claim hold? ────────────────────────────────────────────────
    let with_claim = with_formula(&base, claim_expr.clone());
    let claim_outcome = ask(env, &with_claim, budget, timed);
    let ghost (o1, o2, o3) = (base_outcome@, negated_outcome@, claim_outcome@);
    if let Outcome::Unknown(why) = &claim_outcome {
        let f = plain(
            Verdict::TooComplex,
            claim_src,
            claim_statement,
            undecided_text(why.as_str()),
        );
        assert(finding_by(exact, env@, lim, cs, claim, o1, o2, o3, f@));
        return f;
    }
    if negated_outcome.is_unsat() {
        // The claim cannot be false: it is entailed.
        let mut extra: Vec<Expr> = Vec::new();
        extra.push(negation);
        assert(logic::exprs(extra@) =~= seq![logic::negation(claim)]);
        let core = minimal_core(env, constraints, &extra, budget, timed);
        let detail = if core.len() == 0 {
            "This claim is true no matter what the policy says.".to_owned()
        } else {
            let n = count(core.len());
            cat3("The policy proves this claim. ", n.as_str(), " constraint(s) were needed.")
        };
        let mut f = plain(Verdict::Valid, claim_src, claim_statement, detail);
        f.unstated_assumptions = premise_refs(constraints, &core);
        f.responsible = refs(constraints, &core);
        f.supporting_example = model_copy(&claim_outcome);
        if f.unstated_assumptions.len() > 0 {
            let names = statement_texts(&f.unstated_assumptions);
            let list = join(&names, "; ");
            f.suggestions.push(
                Suggestion {
                    kind: "unstated_assumption".to_owned(),
                    text: cat3(
                        "The answer is only correct because of unstated assumptions: ",
                        list.as_str(),
                        ".",
                    ),
                    assignments: NameMap::new(),
                },
            );
        }
        proof {
            let c = picked(cs, core@);
            assert(reduces_to(exact, env@, lim, cs, 0, seq![logic::negation(claim)], c));
            assert(suggestion_views(f.suggestions@) =~= assumption_suggestions(
                refs_of(premises(c)),
            ));
            assert(finding_by(exact, env@, lim, cs, claim, o1, o2, o3, f@));
        }
        return f;
    }
    if claim_outcome.is_unsat() {
        // The claim cannot be true: it is contradicted.
        let mut extra: Vec<Expr> = Vec::new();
        extra.push(claim_expr.clone());
        assert(logic::exprs(extra@) =~= seq![claim]);
        let core = minimal_core(env, constraints, &extra, budget, timed);
        let n = count(core.len());
        let detail = cat3(
            "The policy contradicts this claim: ",
            n.as_str(),
            " constraint(s) rule it out.",
        );
        let mut f = plain(Verdict::Invalid, claim_src, claim_statement, detail);
        f.responsible = refs(constraints, &core);
        // Only the variables this finding is ABOUT. Two models can differ on any
        // variable the constraints leave free, and folding those into the advice
        // produces sentences like "…only if is_manager = false" addressed to someone
        // who just said they are a manager.
        let about = relevant_vars(claim_expr, constraints, &core);
        f.suggestions = repair_suggestions(
            env,
            constraints,
            claim_expr,
            &counterexample,
            &about,
            budget,
            timed,
        );
        f.counterexample = Some(counterexample);
        proof {
            let c = picked(cs, core@);
            assert(reduces_to(exact, env@, lim, cs, 0, seq![claim], c));
            assert(finding_by(exact, env@, lim, cs, claim, o1, o2, o3, f@));
        }
        return f;
    }
    // Neither entailed nor contradicted.

    let mut f = plain(
        Verdict::Satisfiable,
        claim_src,
        claim_statement,
        "The policy neither proves nor disproves this claim — it is consistent either way. Usually a fact is missing rather than a rule.".to_owned(),
    );
    if let (Some(yes), Some(no)) = (model_copy(&claim_outcome), model_copy(&negated_outcome)) {
        let all = diff_models(&yes, &no);
        let none: Vec<usize> = Vec::new();
        let about = relevant_vars(claim_expr, constraints, &none);
        assert(picked(cs, none@) =~= Seq::empty());
        let differing = keep_relevant(&all, &about);
        let ghost values = differing@;
        if !differing.is_empty() {
            let names = name_texts(&differing);
            let list = join(&names, ", ");
            f.suggestions.push(
                Suggestion {
                    kind: "undetermined_variable".to_owned(),
                    text: cat3("Pin down ", list.as_str(), " to settle this claim."),
                    assignments: differing,
                },
            );
        }
        assert(suggestion_views(f.suggestions@) =~= open_suggestions(values));
        f.supporting_example = Some(yes);
        f.counterexample = Some(no);
    }
    assert(finding_by(exact, env@, lim, cs, claim, o1, o2, o3, f@));
    f
}

/// Decide one claim against the policy and premises. See the module docs for the
/// ordering and why step 1 comes first.
pub fn check_claim(
    env: &Env,
    constraints: &[Constraint],
    claim_expr: &Expr,
    claim_src: &str,
    claim_statement: &str,
    budget: &Budget,
) -> (r: Finding)
    ensures
        r.claim@ == claim_src@,
        r.claim_statement@ == claim_statement@,
        found(false, env@, budget.limits(), constraint_views(constraints@), claim_expr@, r@),
{
    check(env, constraints, claim_expr, claim_src, claim_statement, budget, true)
}

/// Decide one claim without a time limit.
pub fn check_claim_untimed(
    env: &Env,
    constraints: &[Constraint],
    claim_expr: &Expr,
    claim_src: &str,
    claim_statement: &str,
    budget: &Budget,
) -> (r: Finding)
    ensures
        r.claim@ == claim_src@,
        r.claim_statement@ == claim_statement@,
        found(true, env@, budget.limits(), constraint_views(constraints@), claim_expr@, r@),
{
    check(env, constraints, claim_expr, claim_src, claim_statement, budget, false)
}

// ── Laws ────────────────────────────────────────────────────────────────────────

/// A model is listed in one way.
pub proof fn lemma_one_listing(a: Entries, b: Entries, m: Map<Seq<char>, ValueV>)
    requires
        lists(a, m),
        lists(b, m),
    ensures
        a == b,
{
    assert forall|x: Seq<char>| #[trigger] names::lookup(a, x) == names::lookup(b, x) by {
        assert(m.dom().contains(x) == names::named(a, x));
        assert(m.dom().contains(x) == names::named(b, x));
        if names::named(a, x) {
            assert(m[x] == names::lookup(a, x)->0);
            assert(m[x] == names::lookup(b, x)->0);
        }
    }
    names::lemma_same_entries(a, b);
}

/// Without a time limit constraints reduce to one core.
pub proof fn lemma_one_core(
    env: Sorts,
    lim: Limits,
    keep: Seq<ConstraintV>,
    i: int,
    extra: Seq<ExprV>,
    c1: Seq<ConstraintV>,
    c2: Seq<ConstraintV>,
)
    requires
        reduces_to(true, env, lim, keep, i, extra, c1),
        reduces_to(true, env, lim, keep, i, extra, c2),
    ensures
        c1 == c2,
    decreases keep.len() - i,
{
    if 0 <= i < keep.len() {
        if decision::decision(env, trial(keep, i, extra), lim) is Unsat {
            lemma_one_core(env, lim, keep.remove(i), i, extra, c1, c2);
        } else {
            lemma_one_core(env, lim, keep, i + 1, extra, c1, c2);
        }
    }
}

/// Without a time limit a contradicted claim has one set of suggestions.
proof fn lemma_one_repair(
    env: Sorts,
    lim: Limits,
    cs: Seq<ConstraintV>,
    claim: ExprV,
    counterexample: Entries,
    about: Seq<Seq<char>>,
    s1: Seq<SuggestionV>,
    s2: Seq<SuggestionV>,
)
    requires
        repairs(true, env, lim, cs, claim, counterexample, about, s1),
        repairs(true, env, lim, cs, claim, counterexample, about, s2),
    ensures
        s1 == s2,
{
    let o = decision::decision(env, rule_formulas(cs).push(claim), lim);
    match o {
        OutcomeV::Sat(m) => {
            let a1 = choose|a: Entries| #[trigger]
                lists(a, m) && s1 == repair_of(restricted(differing(a, counterexample), about));
            let a2 = choose|a: Entries| #[trigger]
                lists(a, m) && s2 == repair_of(restricted(differing(a, counterexample), about));
            lemma_one_listing(a1, a2, m);
        },
        OutcomeV::Unsat => {},
        OutcomeV::Unknown(_) => {
            assert(s1 =~= s2);
        },
    }
}

/// Checking a claim is deterministic: without a time limit the same constraints and the
/// same claim give the same finding.
pub proof fn lemma_one_finding(
    env: Sorts,
    lim: Limits,
    cs: Seq<ConstraintV>,
    claim: ExprV,
    f: FindingV,
    g: FindingV,
)
    requires
        found(true, env, lim, cs, claim, f),
        found(true, env, lim, cs, claim, g),
        f.claim == g.claim,
        f.claim_statement == g.claim_statement,
    ensures
        f == g,
{
    let (b1, n1, c1) = choose|base: OutcomeV, negated: OutcomeV, claimed: OutcomeV| #[trigger]
        finding_by(true, env, lim, cs, claim, base, negated, claimed, f) && asked(
            true,
            env,
            lim,
            formulas(cs),
            base,
        ) && (base is Sat ==> asked(
            true,
            env,
            lim,
            formulas(cs).push(logic::negation(claim)),
            negated,
        )) && (base is Sat && !(negated is Unknown) ==> asked(
            true,
            env,
            lim,
            formulas(cs).push(claim),
            claimed,
        ));
    let (b2, n2, c2) = choose|base: OutcomeV, negated: OutcomeV, claimed: OutcomeV| #[trigger]
        finding_by(true, env, lim, cs, claim, base, negated, claimed, g) && asked(
            true,
            env,
            lim,
            formulas(cs),
            base,
        ) && (base is Sat ==> asked(
            true,
            env,
            lim,
            formulas(cs).push(logic::negation(claim)),
            negated,
        )) && (base is Sat && !(negated is Unknown) ==> asked(
            true,
            env,
            lim,
            formulas(cs).push(claim),
            claimed,
        ));
    assert(b1 == b2);
    let extra = match verdict_of(b1, n1, c1) {
        Verdict::Valid => seq![logic::negation(claim)],
        Verdict::Invalid => seq![claim],
        _ => Seq::empty(),
    };
    match verdict_of(b1, n1, c1) {
        Verdict::TooComplex => {},
        Verdict::Impossible => {
            let x = choose|core: Seq<ConstraintV>| #[trigger]
                reduces_to(true, env, lim, cs, 0, extra, core) && f.responsible == refs_of(core)
                    && f.detail == impossible_detail(core);
            let y = choose|core: Seq<ConstraintV>| #[trigger]
                reduces_to(true, env, lim, cs, 0, extra, core) && g.responsible == refs_of(core)
                    && g.detail == impossible_detail(core);
            lemma_one_core(env, lim, cs, 0, extra, x, y);
        },
        Verdict::Valid => {
            let x = choose|core: Seq<ConstraintV>| #[trigger]
                reduces_to(true, env, lim, cs, 0, extra, core) && f.responsible == refs_of(core)
                    && f.unstated_assumptions == refs_of(premises(core)) && f.suggestions
                    == assumption_suggestions(refs_of(premises(core))) && f.detail == valid_detail(
                    core.len(),
                );
            let y = choose|core: Seq<ConstraintV>| #[trigger]
                reduces_to(true, env, lim, cs, 0, extra, core) && g.responsible == refs_of(core)
                    && g.unstated_assumptions == refs_of(premises(core)) && g.suggestions
                    == assumption_suggestions(refs_of(premises(core))) && g.detail == valid_detail(
                    core.len(),
                );
            lemma_one_core(env, lim, cs, 0, extra, x, y);
            if let OutcomeV::Sat(m) = c1 {
                lemma_one_listing(f.supporting_example->0, g.supporting_example->0, m);
            }
        },
        Verdict::Invalid => {
            let a = f.counterexample->0;
            lemma_one_listing(a, g.counterexample->0, b1->Sat_0);
            let x = choose|core: Seq<ConstraintV>| #[trigger]
                reduces_to(true, env, lim, cs, 0, extra, core) && f.responsible == refs_of(core)
                    && f.detail == invalid_detail(core.len()) && repairs(
                    true,
                    env,
                    lim,
                    cs,
                    claim,
                    a,
                    relevant(claim, core),
                    f.suggestions,
                );
            let y = choose|core: Seq<ConstraintV>| #[trigger]
                reduces_to(true, env, lim, cs, 0, extra, core) && g.responsible == refs_of(core)
                    && g.detail == invalid_detail(core.len()) && repairs(
                    true,
                    env,
                    lim,
                    cs,
                    claim,
                    a,
                    relevant(claim, core),
                    g.suggestions,
                );
            lemma_one_core(env, lim, cs, 0, extra, x, y);
            lemma_one_repair(
                env,
                lim,
                cs,
                claim,
                a,
                relevant(claim, x),
                f.suggestions,
                g.suggestions,
            );
        },
        _ => {
            lemma_one_listing(f.supporting_example->0, g.supporting_example->0, c1->Sat_0);
            lemma_one_listing(f.counterexample->0, g.counterexample->0, n1->Sat_0);
        },
    }
}

/// What verdicts mean. A world ruled out is ruled out, a valid claim follows from the
/// constraints, an invalid one is refuted by them.
pub proof fn lemma_verdict_means(
    exact: bool,
    env: Sorts,
    lim: Limits,
    cs: Seq<ConstraintV>,
    claim: ExprV,
    f: FindingV,
)
    requires
        found(exact, env, lim, cs, claim, f),
    ensures
        f.verdict == Verdict::Impossible ==> !semantics::satisfiable(env, formulas(cs)),
        f.verdict == Verdict::Valid ==> semantics::entails(env, formulas(cs), claim),
        f.verdict == Verdict::Invalid ==> semantics::entails(
            env,
            formulas(cs),
            logic::negation(claim),
        ),
        f.verdict != Verdict::NoTranslations,
        f.verdict != Verdict::TranslationAmbiguous,
{
    let (base, negated, claimed) = choose|
        base: OutcomeV,
        negated: OutcomeV,
        claimed: OutcomeV,
    | #[trigger]
        finding_by(exact, env, lim, cs, claim, base, negated, claimed, f) && asked(
            exact,
            env,
            lim,
            formulas(cs),
            base,
        ) && (base is Sat ==> asked(
            exact,
            env,
            lim,
            formulas(cs).push(logic::negation(claim)),
            negated,
        )) && (base is Sat && !(negated is Unknown) ==> asked(
            exact,
            env,
            lim,
            formulas(cs).push(claim),
            claimed,
        ));
    assert(f.verdict == verdict_of(base, negated, claimed));
    let all = formulas(cs);
    semantics::lemma_refutation(env, all, claim);
    semantics::lemma_contradiction(env, all, claim);
}

/// Is that an example of a world in which the constraints hold and the claim has that
/// truth value? The world with the listed values does it, and whatever else a world with
/// those values is like, the constraints hold in it.
pub open spec fn exemplifies(
    env: Sorts,
    cs: Seq<ExprV>,
    claim: ExprV,
    truth: bool,
    a: Entries,
) -> bool {
    let m = names::as_map(a);
    let w = soundness::world_of(env, m);
    &&& semantics::admissible(env, cs.push(claim), w)
    &&& semantics::all_hold(cs, w)
    &&& soundness::model_agrees(m, w)
    &&& semantics::holds(claim, w) == truth
    &&& forall|v: Valuation| #[trigger]
        soundness::model_agrees(m, v) ==> semantics::all_hold(cs, v)
}

/// Examples are witnesses. The counterexample of a contradicted or an open claim satisfies
/// the policy and the premises and makes the claim false; the supporting example of a
/// proved or an open claim satisfies them and makes it true.
pub proof fn lemma_examples_are_witnesses(
    exact: bool,
    env: Sorts,
    lim: Limits,
    cs: Seq<ConstraintV>,
    claim: ExprV,
    f: FindingV,
)
    requires
        found(exact, env, lim, cs, claim, f),
        soundness::well_sorted(env, formulas(cs).push(claim)),
        soundness::inhabited(env, formulas(cs).push(claim)),
    ensures
        f.verdict == Verdict::Invalid || f.verdict == Verdict::Satisfiable ==> f.counterexample
            is Some,
        f.verdict == Verdict::Satisfiable ==> f.supporting_example is Some,
        f.counterexample matches Some(a) ==> exemplifies(env, formulas(cs), claim, false, a),
        f.supporting_example matches Some(a) ==> exemplifies(env, formulas(cs), claim, true, a),
{
    let (base, negated, claimed) = choose|
        base: OutcomeV,
        negated: OutcomeV,
        claimed: OutcomeV,
    | #[trigger]
        finding_by(exact, env, lim, cs, claim, base, negated, claimed, f) && asked(
            exact,
            env,
            lim,
            formulas(cs),
            base,
        ) && (base is Sat ==> asked(
            exact,
            env,
            lim,
            formulas(cs).push(logic::negation(claim)),
            negated,
        )) && (base is Sat && !(negated is Unknown) ==> asked(
            exact,
            env,
            lim,
            formulas(cs).push(claim),
            claimed,
        ));
    let all = formulas(cs);
    let no = logic::negation(claim);
    lemma_verdict_means(exact, env, lim, cs, claim, f);
    soundness::lemma_claim_parts(env, all, claim);
    assert(f.verdict == verdict_of(base, negated, claimed));
    if let Some(a) = f.counterexample {
        let m = names::as_map(a);
        let w = soundness::world_of(env, m);
        semantics::lemma_admissible_negation(env, all, claim, w);
        if f.verdict == Verdict::Invalid {
            soundness::lemma_world_extends(env, all, claim, m);
            semantics::lemma_negation(claim, w);
        } else {
            semantics::lemma_append(all, no, w);
            semantics::lemma_negation(claim, w);
            assert forall|v: Valuation| #[trigger]
                soundness::model_agrees(m, v) implies semantics::all_hold(all, v) by {
                semantics::lemma_append(all, no, v);
            }
        }
        assert(exemplifies(env, all, claim, false, a));
    }
    if let Some(a) = f.supporting_example {
        let m = names::as_map(a);
        let w = soundness::world_of(env, m);
        semantics::lemma_append(all, claim, w);
        assert forall|v: Valuation| #[trigger]
            soundness::model_agrees(m, v) implies semantics::all_hold(all, v) by {
            semantics::lemma_append(all, claim, v);
        }
        assert(exemplifies(env, all, claim, true, a));
    }
}

/// A contradictory policy proves nothing: where no world satisfies the constraints, the
/// verdict on every claim is that or that the budget ran out. And a claim is reported
/// as open only where it is: some world satisfies the constraints and the claim, and
/// some world satisfies the constraints without it.
pub proof fn lemma_verdict_cautious(
    exact: bool,
    env: Sorts,
    lim: Limits,
    cs: Seq<ConstraintV>,
    claim: ExprV,
    f: FindingV,
)
    requires
        found(exact, env, lim, cs, claim, f),
        soundness::inhabited(env, formulas(cs).push(claim)),
    ensures
        !semantics::satisfiable(env, formulas(cs)) ==> f.verdict == Verdict::Impossible
            || f.verdict == Verdict::TooComplex,
        f.verdict == Verdict::Satisfiable ==> !semantics::entails(env, formulas(cs), claim)
            && !semantics::entails(env, formulas(cs), logic::negation(claim)),
{
    let (base, negated, claimed) = choose|
        base: OutcomeV,
        negated: OutcomeV,
        claimed: OutcomeV,
    | #[trigger]
        finding_by(exact, env, lim, cs, claim, base, negated, claimed, f) && asked(
            exact,
            env,
            lim,
            formulas(cs),
            base,
        ) && (base is Sat ==> asked(
            exact,
            env,
            lim,
            formulas(cs).push(logic::negation(claim)),
            negated,
        )) && (base is Sat && !(negated is Unknown) ==> asked(
            exact,
            env,
            lim,
            formulas(cs).push(claim),
            claimed,
        ));
    assert(f.verdict == verdict_of(base, negated, claimed));
    let all = formulas(cs);
    soundness::lemma_claim_parts(env, all, claim);
    semantics::lemma_refutation(env, all, claim);
    semantics::lemma_contradiction(env, all, claim);
}

/// Is the constraint at `k` of the core one of `keep` from `i` on?
spec fn comes_from(core: Seq<ConstraintV>, k: int, keep: Seq<ConstraintV>, i: int) -> bool {
    exists|p: int| i <= p < keep.len() && core[k] == #[trigger] keep[p]
}

/// What reduction keeps: the first `i` constraints stay, and the others come from
/// where they were.
proof fn lemma_reduced_from(
    exact: bool,
    env: Sorts,
    lim: Limits,
    keep: Seq<ConstraintV>,
    i: int,
    extra: Seq<ExprV>,
    core: Seq<ConstraintV>,
)
    requires
        0 <= i <= keep.len(),
        reduces_to(exact, env, lim, keep, i, extra, core),
    ensures
        i <= core.len() <= keep.len(),
        forall|k: int| 0 <= k < i ==> #[trigger] core[k] == keep[k],
        forall|k: int| i <= k < core.len() ==> #[trigger] comes_from(core, k, keep, i),
    decreases keep.len() - i,
{
    if i < keep.len() {
        let o = choose|o: OutcomeV| #[trigger]
            asked(exact, env, lim, trial(keep, i, extra), o) && if o is Unsat {
                reduces_to(exact, env, lim, keep.remove(i), i, extra, core)
            } else {
                reduces_to(exact, env, lim, keep, i + 1, extra, core)
            };
        if o is Unsat {
            let less = keep.remove(i);
            lemma_reduced_from(exact, env, lim, less, i, extra, core);
            assert forall|k: int| i <= k < core.len() implies #[trigger] comes_from(
                core,
                k,
                keep,
                i,
            ) by {
                assert(comes_from(core, k, less, i));
                let p = choose|p: int| i <= p < less.len() && core[k] == #[trigger] less[p];
                assert(less[p] == keep[p + 1]);
            }
        } else {
            lemma_reduced_from(exact, env, lim, keep, i + 1, extra, core);
            assert forall|k: int| i <= k < core.len() implies #[trigger] comes_from(
                core,
                k,
                keep,
                i,
            ) by {
                if k == i {
                    assert(core[k] == keep[i]);
                } else {
                    assert(comes_from(core, k, keep, i + 1));
                }
            }
        }
    }
}

/// A core is made of the constraints that it was reduced from.
pub proof fn lemma_core_within(
    exact: bool,
    env: Sorts,
    lim: Limits,
    keep: Seq<ConstraintV>,
    extra: Seq<ExprV>,
    core: Seq<ConstraintV>,
)
    requires
        reduces_to(exact, env, lim, keep, 0, extra, core),
    ensures
        forall|k: int| 0 <= k < core.len() ==> keep.contains(#[trigger] core[k]),
{
    lemma_reduced_from(exact, env, lim, keep, 0, extra, core);
    assert forall|k: int| 0 <= k < core.len() implies keep.contains(#[trigger] core[k]) by {
        assert(comes_from(core, k, keep, 0));
    }
}

/// A core still does the work: where the constraints together with what must stay were
/// unsatisfiable, the core is.
pub proof fn lemma_core_suffices(
    exact: bool,
    env: Sorts,
    lim: Limits,
    keep: Seq<ConstraintV>,
    i: int,
    extra: Seq<ExprV>,
    core: Seq<ConstraintV>,
)
    requires
        0 <= i <= keep.len(),
        reduces_to(exact, env, lim, keep, i, extra, core),
        !semantics::satisfiable(env, formulas(keep) + extra),
    ensures
        !semantics::satisfiable(env, formulas(core) + extra),
    decreases keep.len() - i,
{
    if i < keep.len() {
        let o = choose|o: OutcomeV| #[trigger]
            asked(exact, env, lim, trial(keep, i, extra), o) && if o is Unsat {
                reduces_to(exact, env, lim, keep.remove(i), i, extra, core)
            } else {
                reduces_to(exact, env, lim, keep, i + 1, extra, core)
            };
        if o is Unsat {
            lemma_core_suffices(exact, env, lim, keep.remove(i), i, extra, core);
        } else {
            lemma_core_suffices(exact, env, lim, keep, i + 1, extra, core);
        }
    }
}

/// Are these constraints among those, and do they settle the claim as the verdict says?
pub open spec fn settles(
    env: Sorts,
    cs: Seq<ConstraintV>,
    core: Seq<ConstraintV>,
    claim: ExprV,
    verdict: Verdict,
) -> bool {
    &&& forall|k: int| 0 <= k < core.len() ==> cs.contains(#[trigger] core[k])
    &&& verdict == Verdict::Impossible ==> !semantics::satisfiable(env, formulas(core))
    &&& verdict == Verdict::Valid ==> semantics::entails(env, formulas(core), claim)
    &&& verdict == Verdict::Invalid ==> semantics::entails(
        env,
        formulas(core),
        logic::negation(claim),
    )
}

/// The constraints that a finding blames did the work: on their own they contradict each
/// other, prove the claim or refute it, as the verdict says.
pub proof fn lemma_responsible_settle(
    exact: bool,
    env: Sorts,
    lim: Limits,
    cs: Seq<ConstraintV>,
    claim: ExprV,
    f: FindingV,
)
    requires
        found(exact, env, lim, cs, claim, f),
        f.verdict == Verdict::Impossible || f.verdict == Verdict::Valid || f.verdict
            == Verdict::Invalid,
    ensures
        exists|core: Seq<ConstraintV>|
            f.responsible == refs_of(core) && #[trigger] settles(env, cs, core, claim, f.verdict),
{
    let (base, negated, claimed) = choose|
        base: OutcomeV,
        negated: OutcomeV,
        claimed: OutcomeV,
    | #[trigger]
        finding_by(exact, env, lim, cs, claim, base, negated, claimed, f) && asked(
            exact,
            env,
            lim,
            formulas(cs),
            base,
        ) && (base is Sat ==> asked(
            exact,
            env,
            lim,
            formulas(cs).push(logic::negation(claim)),
            negated,
        )) && (base is Sat && !(negated is Unknown) ==> asked(
            exact,
            env,
            lim,
            formulas(cs).push(claim),
            claimed,
        ));
    let no = logic::negation(claim);
    let extra: Seq<ExprV> = if f.verdict == Verdict::Valid {
        seq![no]
    } else if f.verdict == Verdict::Invalid {
        seq![claim]
    } else {
        Seq::empty()
    };
    let core = choose|core: Seq<ConstraintV>| #[trigger]
        reduces_to(exact, env, lim, cs, 0, extra, core) && f.responsible == refs_of(core);
    assert(reduces_to(exact, env, lim, cs, 0, extra, core));
    lemma_core_within(exact, env, lim, cs, extra, core);
    if f.verdict == Verdict::Impossible {
        assert(formulas(cs) + extra =~= formulas(cs));
        assert(formulas(core) + extra =~= formulas(core));
    } else {
        assert(formulas(cs) + extra =~= formulas(cs).push(extra[0]));
        assert(formulas(core) + extra =~= formulas(core).push(extra[0]));
    }
    lemma_core_suffices(exact, env, lim, cs, 0, extra, core);
    semantics::lemma_refutation(env, formulas(core), claim);
    semantics::lemma_contradiction(env, formulas(core), claim);
    assert(settles(env, cs, core, claim, f.verdict));
}

/// Is the constraint at `k` of the core needed? Without it some world satisfies the rest,
/// unless the solver could not tell: then it was asked about the rest of the core,
/// perhaps together with more of the constraints, but not all of them.
pub open spec fn needed(
    exact: bool,
    env: Sorts,
    lim: Limits,
    keep: Seq<ConstraintV>,
    core: Seq<ConstraintV>,
    k: int,
    extra: Seq<ExprV>,
) -> bool {
    let rest = formulas(core.remove(k)) + extra;
    let all = formulas(keep) + extra;
    ||| semantics::satisfiable(env, rest)
    ||| exists|question: Seq<ExprV>, why: Seq<char>| #[trigger]
        asked(exact, env, lim, question, OutcomeV::Unknown(why)) && semantics::covers(question, rest)
            && semantics::covers(all, question) && question.len() < all.len()
}

/// A core has no removable member.
pub proof fn lemma_core_minimal(
    exact: bool,
    env: Sorts,
    lim: Limits,
    keep: Seq<ConstraintV>,
    i: int,
    extra: Seq<ExprV>,
    core: Seq<ConstraintV>,
    k: int,
)
    requires
        0 <= i <= keep.len(),
        reduces_to(exact, env, lim, keep, i, extra, core),
        soundness::inhabited(env, formulas(keep) + extra),
        i <= k < core.len(),
    ensures
        needed(exact, env, lim, keep, core, k, extra),
    decreases keep.len() - i,
{
    lemma_reduced_from(exact, env, lim, keep, i, extra, core);
    if i < keep.len() {
        let question = trial(keep, i, extra);
        let less = keep.remove(i);
        let o = choose|o: OutcomeV| #[trigger]
            asked(exact, env, lim, question, o) && if o is Unsat {
                reduces_to(exact, env, lim, less, i, extra, core)
            } else {
                reduces_to(exact, env, lim, keep, i + 1, extra, core)
            };
        lemma_trial_covered(keep, i, extra);
        soundness::lemma_fewer(env, formulas(keep) + extra, question);
        if o is Unsat {
            lemma_core_minimal(exact, env, lim, less, i, extra, core, k);
            let rest = formulas(core.remove(k)) + extra;
            if !semantics::satisfiable(env, rest) {
                let part = formulas(less) + extra;
                let (q, why) = choose|q: Seq<ExprV>, why: Seq<char>| #[trigger]
                    asked(exact, env, lim, q, OutcomeV::Unknown(why)) && semantics::covers(q, rest) && semantics::covers(
                        part,
                        q,
                    ) && q.len() < part.len();
                assert(asked(exact, env, lim, q, OutcomeV::Unknown(why)));
                assert(semantics::covers(formulas(keep) + extra, q)) by {
                    assert forall|e: ExprV| #[trigger] q.contains(e) implies (formulas(keep)
                        + extra).contains(e) by {
                        assert(part.contains(e));
                    }
                }
            }
        } else if k > i {
            lemma_core_minimal(exact, env, lim, keep, i + 1, extra, core, k);
        } else {
            match o {
                OutcomeV::Sat(_) => {
                    let w = choose|w: Valuation| semantics::satisfies(env, question, w);
                    let rest = formulas(core.remove(i)) + extra;
                    lemma_rest_covered(exact, env, lim, keep, i, extra, core);
                    semantics::lemma_fewer(env, question, rest, w);
                    assert(semantics::satisfies(env, rest, w));
                },
                OutcomeV::Unknown(why) => {
                    lemma_rest_covered(exact, env, lim, keep, i, extra, core);
                    assert(asked(exact, env, lim, question, OutcomeV::Unknown(why)));
                },
                OutcomeV::Unsat => {},
            }
        }
    }
}

/// A trivially true claim proves nothing: a claim that is true in every world blames no
/// constraint, unless a question that was asked while looking for the blame ran out of
/// budget.
pub proof fn lemma_trivial_claim(
    exact: bool,
    env: Sorts,
    lim: Limits,
    cs: Seq<ConstraintV>,
    claim: ExprV,
    f: FindingV,
)
    requires
        found(exact, env, lim, cs, claim, f),
        f.verdict == Verdict::Valid,
        semantics::entails(env, Seq::empty(), claim),
        soundness::inhabited(env, formulas(cs).push(claim)),
    ensures
        f.responsible.len() == 0 || exists|question: Seq<ExprV>, why: Seq<char>| #[trigger]
            asked(exact, env, lim, question, OutcomeV::Unknown(why)) && semantics::covers(
                formulas(cs).push(logic::negation(claim)),
                question,
            ) && question.len() <= cs.len(),
{
    let (base, negated, claimed) = choose|
        base: OutcomeV,
        negated: OutcomeV,
        claimed: OutcomeV,
    | #[trigger]
        finding_by(exact, env, lim, cs, claim, base, negated, claimed, f) && asked(
            exact,
            env,
            lim,
            formulas(cs),
            base,
        ) && (base is Sat ==> asked(
            exact,
            env,
            lim,
            formulas(cs).push(logic::negation(claim)),
            negated,
        )) && (base is Sat && !(negated is Unknown) ==> asked(
            exact,
            env,
            lim,
            formulas(cs).push(claim),
            claimed,
        ));
    let no = logic::negation(claim);
    let extra = seq![no];
    let core = choose|core: Seq<ConstraintV>| #[trigger]
        reduces_to(exact, env, lim, cs, 0, extra, core) && f.responsible == refs_of(core);
    assert(reduces_to(exact, env, lim, cs, 0, extra, core));
    assert(formulas(cs) + extra =~= formulas(cs).push(no));
    soundness::lemma_claim_parts(env, formulas(cs), claim);
    if core.len() > 0 {
        lemma_core_minimal(exact, env, lim, cs, 0, extra, core, 0);
        let rest = formulas(core.remove(0)) + extra;
        assert(!semantics::satisfiable(env, rest)) by {
            if semantics::satisfiable(env, rest) {
                let v = choose|v: Valuation| semantics::satisfies(env, rest, v);
                let nothing = Seq::<ExprV>::empty();
                assert(rest[rest.len() - 1] == no);
                assert(semantics::holds(rest[rest.len() - 1], v));
                semantics::lemma_negation(claim, v);
                assert(semantics::covers(rest, nothing.push(no)));
                semantics::lemma_fewer(env, rest, nothing.push(no), v);
                semantics::lemma_admissible_negation(env, nothing, claim, v);
                assert(semantics::admissible(env, nothing.push(claim), v));
            }
        }
        let all = formulas(cs) + extra;
        let (q, why) = choose|question: Seq<ExprV>, why: Seq<char>| #[trigger]
            asked(exact, env, lim, question, OutcomeV::Unknown(why)) && semantics::covers(question, rest)
                && semantics::covers(all, question) && question.len() < all.len();
        assert(asked(exact, env, lim, q, OutcomeV::Unknown(why)));
    }
}

proof fn lemma_restricted(a: Entries, about: Seq<Seq<char>>, i: int)
    requires
        0 <= i < restricted(a, about).len(),
    ensures
        about.contains(restricted(a, about)[i].0),
        a.contains(restricted(a, about)[i]),
    decreases a.len(),
{
    let front = restricted(a.drop_last(), about);
    if i < front.len() {
        lemma_restricted(a.drop_last(), about, i);
        let p = a.drop_last().index_of(restricted(a, about)[i]);
        assert(a[p] == restricted(a, about)[i]);
    } else {
        assert(a[a.len() - 1] == restricted(a, about)[i]);
    }
}

/// A repair names only the variables the finding is about: those of the claim and those of
/// the constraints that it blames.
pub proof fn lemma_repair_is_relevant(
    exact: bool,
    env: Sorts,
    lim: Limits,
    cs: Seq<ConstraintV>,
    claim: ExprV,
    f: FindingV,
)
    requires
        found(exact, env, lim, cs, claim, f),
        f.verdict == Verdict::Invalid,
    ensures
        exists|core: Seq<ConstraintV>|
            f.responsible == refs_of(core) && #[trigger] settles(env, cs, core, claim, f.verdict)
                && (forall|k: int, i: int|
                0 <= k < f.suggestions.len() && 0 <= i < f.suggestions[k].assignments.len()
                    ==> relevant(claim, core).contains(
                    (#[trigger] f.suggestions[k].assignments[i]).0,
                )),
{
    let (base, negated, claimed) = choose|
        base: OutcomeV,
        negated: OutcomeV,
        claimed: OutcomeV,
    | #[trigger]
        finding_by(exact, env, lim, cs, claim, base, negated, claimed, f) && asked(
            exact,
            env,
            lim,
            formulas(cs),
            base,
        ) && (base is Sat ==> asked(
            exact,
            env,
            lim,
            formulas(cs).push(logic::negation(claim)),
            negated,
        )) && (base is Sat && !(negated is Unknown) ==> asked(
            exact,
            env,
            lim,
            formulas(cs).push(claim),
            claimed,
        ));
    let a = f.counterexample->0;
    let extra = seq![claim];
    let core = choose|core: Seq<ConstraintV>| #[trigger]
        reduces_to(exact, env, lim, cs, 0, extra, core) && f.responsible == refs_of(core)
            && repairs(
            exact,
            env,
            lim,
            cs,
            claim,
            a,
            relevant(claim, core),
            f.suggestions,
        );
    assert(reduces_to(exact, env, lim, cs, 0, extra, core));
    assert(formulas(cs) + extra =~= formulas(cs).push(claim));
    assert(formulas(core) + extra =~= formulas(core).push(claim));
    lemma_core_suffices(exact, env, lim, cs, 0, extra, core);
    lemma_core_within(exact, env, lim, cs, extra, core);
    semantics::lemma_contradiction(env, formulas(core), claim);
    assert(settles(env, cs, core, claim, f.verdict));
    let about = relevant(claim, core);
    let o = choose|o: OutcomeV| #[trigger]
        asked(exact, env, lim, rule_formulas(cs).push(claim), o) && match o {
            OutcomeV::Sat(m) => exists|b: Entries| #[trigger]
                lists(b, m) && f.suggestions == repair_of(restricted(differing(b, a), about)),
            OutcomeV::Unsat => f.suggestions == never_valid(),
            OutcomeV::Unknown(_) => f.suggestions.len() == 0,
        };
    if let OutcomeV::Sat(m) = o {
        let b = choose|b: Entries| #[trigger]
            lists(b, m) && f.suggestions == repair_of(restricted(differing(b, a), about));
        let values = restricted(differing(b, a), about);
        assert forall|k: int, i: int|
            0 <= k < f.suggestions.len() && 0 <= i < f.suggestions[k].assignments.len() implies about.contains(
            (#[trigger] f.suggestions[k].assignments[i]).0,
        ) by {
            lemma_restricted(differing(b, a), about, i);
        }
    }
}

/// A trial is covered by what it was made from.
proof fn lemma_trial_covered(keep: Seq<ConstraintV>, i: int, extra: Seq<ExprV>)
    requires
        0 <= i < keep.len(),
    ensures
        semantics::covers(formulas(keep) + extra, trial(keep, i, extra)),
        trial(keep, i, extra).len() < (formulas(keep) + extra).len(),
{
    let less = keep.remove(i);
    let (all, part) = (formulas(keep) + extra, formulas(less) + extra);
    assert forall|e: ExprV| #[trigger] part.contains(e) implies all.contains(e) by {
        let k = part.index_of(e);
        let p = if k < i {
            k
        } else {
            k + 1
        };
        assert(all[p] == e) by {
            if k < less.len() {
                assert(less[k] == keep[p]);
            }
        }
    }
}

/// The rest of a core is covered by the trial that kept a constraint.
proof fn lemma_rest_covered(
    exact: bool,
    env: Sorts,
    lim: Limits,
    keep: Seq<ConstraintV>,
    i: int,
    extra: Seq<ExprV>,
    core: Seq<ConstraintV>,
)
    requires
        0 <= i < keep.len(),
        i < core.len(),
        reduces_to(exact, env, lim, keep, i + 1, extra, core),
    ensures
        semantics::covers(trial(keep, i, extra), formulas(core.remove(i)) + extra),
{
    lemma_reduced_from(exact, env, lim, keep, i + 1, extra, core);
    let less = keep.remove(i);
    let rest = core.remove(i);
    let (q, r) = (formulas(less) + extra, formulas(rest) + extra);
    assert forall|e: ExprV| #[trigger] r.contains(e) implies q.contains(e) by {
        let j = r.index_of(e);
        if j >= rest.len() {
            assert(q[less.len() + (j - rest.len())] == e);
        } else if j < i {
            assert(rest[j] == core[j]);
            assert(core[j] == keep[j]);
            assert(less[j] == keep[j]);
            assert(q[j] == e);
        } else {
            assert(rest[j] == core[j + 1]);
            assert(comes_from(core, j + 1, keep, i + 1));
            let p = choose|p: int| i + 1 <= p < keep.len() && core[j + 1] == #[trigger] keep[p];
            assert(less[p - 1] == keep[p]);
            assert(q[p - 1] == e);
        }
    }
}

/// Is the one list made of members of the other, each taken at most once and in the
/// same order?
pub open spec fn sublist(part: Seq<ConstraintV>, all: Seq<ConstraintV>) -> bool {
    exists|at: Seq<int>| #[trigger] taken_at(part, all, at)
}

/// Are those the members of the list at these positions, in ascending order?
pub open spec fn taken_at(part: Seq<ConstraintV>, all: Seq<ConstraintV>, at: Seq<int>) -> bool {
    &&& at.len() == part.len()
    &&& forall|k: int| 0 <= k < at.len() ==> 0 <= #[trigger] at[k] < all.len()
    &&& forall|j: int, k: int| 0 <= j < k < at.len() ==> #[trigger] at[j] < #[trigger] at[k]
    &&& forall|k: int| 0 <= k < at.len() ==> #[trigger] part[k] == all[at[k]]
}

proof fn lemma_sublist_less(part: Seq<ConstraintV>, all: Seq<ConstraintV>, i: int)
    requires
        sublist(part, all),
        0 <= i < part.len(),
    ensures
        sublist(part.remove(i), all),
{
    let at = choose|at: Seq<int>| #[trigger] taken_at(part, all, at);
    assert(taken_at(part.remove(i), all, at.remove(i)));
}

/// Is the solver sure of every part of these constraints, together with what must stay?
pub open spec fn sure(env: Sorts, lim: Limits, all: Seq<ConstraintV>, extra: Seq<ExprV>) -> bool {
    forall|part: Seq<ConstraintV>| #[trigger]
        sublist(part, all) ==> !(decision::decision(env, formulas(part) + extra, lim) is Unknown)
}

proof fn lemma_reasked_from(
    env: Sorts,
    lim: Limits,
    all: Seq<ConstraintV>,
    keep: Seq<ConstraintV>,
    i: int,
    extra: Seq<ExprV>,
    core: Seq<ConstraintV>,
)
    requires
        0 <= i <= keep.len(),
        reduces_to(true, env, lim, keep, i, extra, core),
        sublist(keep, all),
        decision::decision(env, formulas(keep) + extra, lim) is Unsat,
    ensures
        sublist(core, all),
        decision::decision(env, formulas(core) + extra, lim) is Unsat,
        sure(env, lim, all, extra) && soundness::inhabited(env, formulas(keep) + extra)
            ==> forall|k: int|
            i <= k < core.len() ==> decision::decision(
                env,
                #[trigger] trial(core, k, extra),
                lim,
            ) is Sat,
    decreases keep.len() - i,
{
    if i < keep.len() {
        let question = trial(keep, i, extra);
        let less = keep.remove(i);
        let o = choose|o: OutcomeV| #[trigger]
            asked(true, env, lim, question, o) && if o is Unsat {
                reduces_to(true, env, lim, less, i, extra, core)
            } else {
                reduces_to(true, env, lim, keep, i + 1, extra, core)
            };
        lemma_trial_covered(keep, i, extra);
        soundness::lemma_fewer(env, formulas(keep) + extra, question);
        lemma_sublist_less(keep, all, i);
        if o is Unsat {
            lemma_reasked_from(env, lim, all, less, i, extra, core);
        } else {
            lemma_reasked_from(env, lim, all, keep, i + 1, extra, core);
            lemma_reduced_from(true, env, lim, keep, i + 1, extra, core);
            lemma_rest_covered(true, env, lim, keep, i, extra, core);
            lemma_sublist_less(core, all, i);
            if sure(env, lim, all, extra) && soundness::inhabited(env, formulas(keep) + extra) {
                let rest = trial(core, i, extra);
                let w = choose|w: Valuation| semantics::satisfies(env, question, w);
                semantics::lemma_fewer(env, question, rest, w);
                assert(semantics::satisfies(env, rest, w));
                soundness::lemma_fewer(env, question, rest);
                if decision::decision(env, rest, lim) is Unsat {
                    soundness::lemma_unsat(env, rest, lim);
                }
            }
        }
    }
}

/// Is that what is left of refuted constraints when nothing more can be removed? It is
/// made of some of them in their order, and the solver refutes it too. Where the solver is
/// sure of every part of the constraints and the enums tested have values, it finds a
/// model of the rest without any one member.
pub open spec fn irreducible(
    env: Sorts,
    lim: Limits,
    all: Seq<ConstraintV>,
    extra: Seq<ExprV>,
    core: Seq<ConstraintV>,
) -> bool {
    decision::decision(env, formulas(all) + extra, lim) is Unsat ==> {
        &&& sublist(core, all)
        &&& decision::decision(env, formulas(core) + extra, lim) is Unsat
        &&& sure(env, lim, all, extra) && soundness::inhabited(env, formulas(all) + extra)
            ==> forall|k: int|
            0 <= k < core.len() ==> decision::decision(
                env,
                #[trigger] trial(core, k, extra),
                lim,
            ) is Sat
    }
}

/// A core stands up to being asked again: the solver refutes it, and without any one of
/// its members it finds a model.
pub proof fn lemma_core_asked_again(
    env: Sorts,
    lim: Limits,
    all: Seq<ConstraintV>,
    extra: Seq<ExprV>,
    core: Seq<ConstraintV>,
)
    requires
        reduces_to(true, env, lim, all, 0, extra, core),
    ensures
        irreducible(env, lim, all, extra, core),
{
    if decision::decision(env, formulas(all) + extra, lim) is Unsat {
        assert(taken_at(all, all, Seq::new(all.len(), |k: int| k)));
        lemma_reasked_from(env, lim, all, all, 0, extra, core);
    }
}

// ── What a selection keeps ──────────────────────────────────────────────────────

/// The premises among constraints are exactly those that came from the question, in order.
pub proof fn lemma_premises(cs: Seq<ConstraintV>) -> (at: Seq<int>)
    ensures
        lists::ascending(at, cs.len() as int),
        premises(cs).len() == at.len(),
        forall|k: int|
            #![trigger at[k]]
            0 <= k < at.len() ==> {
                &&& cs[at[k]].origin == Origin::Premise
                &&& premises(cs)[k] == cs[at[k]]
            },
        forall|i: int|
            #![trigger cs[i]]
            0 <= i < cs.len() && cs[i].origin == Origin::Premise ==> at.contains(i),
    decreases cs.len(),
{
    if cs.len() == 0 {
        Seq::empty()
    } else {
        let init = cs.drop_last();
        let n = init.len() as int;
        let front = lemma_premises(init);
        lists::lemma_extended(front, n);
        let e = cs[n];
        let at = if e.origin == Origin::Premise {
            front.push(n)
        } else {
            front
        };
        assert forall|k: int| #![trigger at[k]] 0 <= k < at.len() implies {
            &&& cs[at[k]].origin == Origin::Premise
            &&& premises(cs)[k] == cs[at[k]]
        } by {
            if k < front.len() {
                assert(premises(init)[k] == premises(cs)[k]);
                assert(init[front[k]] == cs[front[k]]);
            }
        }
        assert forall|i: int|
            #![trigger cs[i]]
            0 <= i < cs.len() && cs[i].origin == Origin::Premise implies at.contains(i) by {
            if i < n {
                assert(init[i] == cs[i]);
                assert(front.contains(i));
            }
        }
        at
    }
}

/// The formulas of the rules are those of exactly the constraints that came from the
/// policy, in order.
pub proof fn lemma_rule_formulas(cs: Seq<ConstraintV>) -> (at: Seq<int>)
    ensures
        lists::ascending(at, cs.len() as int),
        rule_formulas(cs).len() == at.len(),
        forall|k: int|
            #![trigger at[k]]
            0 <= k < at.len() ==> {
                &&& cs[at[k]].origin == Origin::Rule
                &&& rule_formulas(cs)[k] == cs[at[k]].expr
            },
        forall|i: int|
            #![trigger cs[i]]
            0 <= i < cs.len() && cs[i].origin == Origin::Rule ==> at.contains(i),
    decreases cs.len(),
{
    if cs.len() == 0 {
        Seq::empty()
    } else {
        let init = cs.drop_last();
        let n = init.len() as int;
        let front = lemma_rule_formulas(init);
        lists::lemma_extended(front, n);
        let e = cs[n];
        let at = if e.origin == Origin::Rule {
            front.push(n)
        } else {
            front
        };
        assert forall|k: int| #![trigger at[k]] 0 <= k < at.len() implies {
            &&& cs[at[k]].origin == Origin::Rule
            &&& rule_formulas(cs)[k] == cs[at[k]].expr
        } by {
            if k < front.len() {
                assert(rule_formulas(init)[k] == rule_formulas(cs)[k]);
                assert(init[front[k]] == cs[front[k]]);
            }
        }
        assert forall|i: int|
            #![trigger cs[i]]
            0 <= i < cs.len() && cs[i].origin == Origin::Rule implies at.contains(i) by {
            if i < n {
                assert(init[i] == cs[i]);
                assert(front.contains(i));
            }
        }
        at
    }
}

/// The differing values are exactly the entries that the other list does not have, in
/// order.
pub proof fn lemma_differing(a: Entries, b: Entries) -> (at: Seq<int>)
    ensures
        lists::ascending(at, a.len() as int),
        differing(a, b).len() == at.len(),
        forall|k: int|
            #![trigger at[k]]
            0 <= k < at.len() ==> {
                &&& names::lookup(b, a[at[k]].0) != Some(a[at[k]].1)
                &&& differing(a, b)[k] == a[at[k]]
            },
        forall|i: int|
            #![trigger a[i]]
            0 <= i < a.len() && names::lookup(b, a[i].0) != Some(a[i].1) ==> at.contains(i),
    decreases a.len(),
{
    if a.len() == 0 {
        Seq::empty()
    } else {
        let init = a.drop_last();
        let n = init.len() as int;
        let front = lemma_differing(init, b);
        lists::lemma_extended(front, n);
        let e = a[n];
        let at = if names::lookup(b, e.0) != Some(e.1) {
            front.push(n)
        } else {
            front
        };
        assert forall|k: int| #![trigger at[k]] 0 <= k < at.len() implies {
            &&& names::lookup(b, a[at[k]].0) != Some(a[at[k]].1)
            &&& differing(a, b)[k] == a[at[k]]
        } by {
            if k < front.len() {
                assert(differing(init, b)[k] == differing(a, b)[k]);
                assert(init[front[k]] == a[front[k]]);
            }
        }
        assert forall|i: int|
            #![trigger a[i]]
            0 <= i < a.len() && names::lookup(b, a[i].0) != Some(a[i].1) implies at.contains(i) by {
            if i < n {
                assert(init[i] == a[i]);
                assert(front.contains(i));
            }
        }
        at
    }
}

/// The restricted values are exactly the entries whose names are in the list, in order.
pub proof fn lemma_restricted_to(a: Entries, about: Seq<Seq<char>>) -> (at: Seq<int>)
    ensures
        lists::ascending(at, a.len() as int),
        restricted(a, about).len() == at.len(),
        forall|k: int|
            #![trigger at[k]]
            0 <= k < at.len() ==> {
                &&& about.contains(a[at[k]].0)
                &&& restricted(a, about)[k] == a[at[k]]
            },
        forall|i: int|
            #![trigger a[i]]
            0 <= i < a.len() && about.contains(a[i].0) ==> at.contains(i),
    decreases a.len(),
{
    if a.len() == 0 {
        Seq::empty()
    } else {
        let init = a.drop_last();
        let n = init.len() as int;
        let front = lemma_restricted_to(init, about);
        lists::lemma_extended(front, n);
        let e = a[n];
        let at = if about.contains(e.0) {
            front.push(n)
        } else {
            front
        };
        assert forall|k: int| #![trigger at[k]] 0 <= k < at.len() implies {
            &&& about.contains(a[at[k]].0)
            &&& restricted(a, about)[k] == a[at[k]]
        } by {
            if k < front.len() {
                assert(restricted(init, about)[k] == restricted(a, about)[k]);
                assert(init[front[k]] == a[front[k]]);
            }
        }
        assert forall|i: int|
            #![trigger a[i]]
            0 <= i < a.len() && about.contains(a[i].0) implies at.contains(i) by {
            if i < n {
                assert(init[i] == a[i]);
                assert(front.contains(i));
            }
        }
        at
    }
}

} // verus!
