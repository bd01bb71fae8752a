//! The checks behind the HTTP surface.
//!
//! Everything that decides a verdict is deterministic and offline: given premises and
//! claims already written in the DSL — by a workflow, an agent tool or a model that
//! translated prose — [`evaluate`] hands them to the solver. So a check can always be
//! reproduced from its findings without re-running a model.

use vstd::prelude::*;

use crate::clock::{nanos_since, now, whole_millis};
use crate::decision::Limits;
use crate::grammar;
use crate::json;
use crate::json::{list_value, object2, object3, text_value, Json, JsonV};
use crate::lexer::ErrV;
use crate::lists;
use crate::logic;
use crate::logic::{Expr, ExprV, Variable};
use crate::names;
use crate::names::NameMap;
use crate::parser::parse;
use crate::policy;
use crate::policy::{CompiledPolicy, Policy, Rule, RuleErrV, RuleError, RuleV, TestCase};
use crate::semantics;
use crate::semantics::Sorts;
use crate::solver;
use crate::solver::{Budget, Env, Value};
use crate::store;
use crate::store::is_alphanumeric;
use crate::text;
use crate::text::{
    blank, cat2, cat3, cat4, cat5, chars_of, copy_texts, count, lower_letter, same, text_of, trim,
};
use crate::translate;
use crate::translate::{Draft, Extracted, ExtractedV, Extraction, ExtractionV};
use crate::verdict;
use crate::verdict::{
    check_claim, check_claim_untimed, Constraint, ConstraintV, Entries, Finding, FindingV, Origin,
    Suggestion, SuggestionV, Verdict,
};

verus! {

// ── Ids ─────────────────────────────────────────────────────────────────────────

/// Letters and digits in lower case, a dash for what stands between them. Dashes are put
/// only into the first 48 characters.
pub open spec fn dashed(name: Seq<char>) -> Seq<char>
    decreases name.len(),
{
    if name.len() == 0 {
        Seq::empty()
    } else {
        let out = dashed(name.drop_last());
        let c = name.last();
        if store::alphanumeric(c) {
            out.push(text::lower_char(c))
        } else if out.len() > 0 && out.last() != '-' && out.len() < 48 {
            out.push('-')
        } else {
            out
        }
    }
}

/// The id that a name gives, empty where it holds neither a letter nor a digit.
pub open spec fn slug_of(name: Seq<char>) -> Seq<char> {
    let out = dashed(name);
    if out.len() > 0 && out.last() == '-' {
        out.drop_last()
    } else {
        out
    }
}

/// Is that an id drawn at random?
pub open spec fn random_id(id: Seq<char>) -> bool {
    &&& id.len() == 32
    &&& forall|i: int|
        0 <= i < id.len() ==> ('0' <= (#[trigger] id[i]) <= '9') || ('a' <= id[i] <= 'f')
}

/// Is that an id for a policy of that name?
pub open spec fn slugged(name: Seq<char>, id: Seq<char>) -> bool {
    if slug_of(name).len() > 0 {
        id == slug_of(name)
    } else {
        exists|tail: Seq<char>| #[trigger] random_id(tail) && id == "policy-"@ + tail
    }
}

/// A random id of `uuid::Uuid::new_v4` in its simple form. Claimed is its shape: 32 digits
/// of base sixteen, in lower case, without hyphens. Which ones is left to chance.
#[verifier::external_body]
fn fresh_id() -> (r: String)
    ensures
        random_id(r@),
{
    uuid::Uuid::new_v4().simple().to_string()
}

/// The id that a name gives, or one made of the given tail where it gives none.
pub fn slug_or(name: &str, tail: &str) -> (r: String)
    ensures
        r@ == if slug_of(name@).len() > 0 {
            slug_of(name@)
        } else {
            "policy-"@ + tail@
        },
{
    let chars = chars_of(name);
    let ghost all = chars@;
    let mut out: Vec<char> = Vec::new();
    let mut i: usize = 0;
    while i < chars.len()
        invariant
            i <= chars@.len(),
            all == chars@,
            out@ == dashed(all.take(i as int)),
        decreases chars@.len() - i,
    {
        proof {
            assert(all.take(i + 1).drop_last() =~= all.take(i as int));
            assert(all.take(i + 1).last() == all[i as int]);
        }
        let c = chars[i];
        if is_alphanumeric(c) {
            out.push(lower_letter(c));
        } else if out.len() > 0 && out[out.len() - 1] != '-' && out.len() < 48 {
            out.push('-');
        }
        i += 1;
    }
    assert(all.take(i as int) =~= all);
    let n = out.len();
    let end: usize = if n > 0 && out[n - 1] == '-' {
        n - 1
    } else {
        n
    };
    if end == 0 {
        return cat2("policy-", tail);
    }
    let r = text_of(&out, 0, end);
    assert(r@ =~= slug_of(name@));
    r
}

/// A URL- and filename-safe id derived from the policy name.
pub fn slug(name: &str) -> (r: String)
    ensures
        slugged(name@, r@),
{
    let tail = fresh_id();
    assert(random_id(tail@));
    slug_or(name, tail.as_str())
}

proof fn lemma_dashed(name: Seq<char>)
    ensures
        dashed(name).len() <= name.len(),
        dashed(name).len() > 0 ==> dashed(name)[0] != '-',
        forall|i: int|
            0 <= i < dashed(name).len() ==> store::alphanumeric(#[trigger] dashed(name)[i])
                || dashed(name)[i] == '-',
    decreases name.len(),
{
    if name.len() > 0 {
        let front = dashed(name.drop_last());
        lemma_dashed(name.drop_last());
        assert forall|i: int| 0 <= i < dashed(name).len() implies store::alphanumeric(
            #[trigger] dashed(name)[i],
        ) || dashed(name)[i] == '-' by {
            if i < front.len() {
                assert(dashed(name)[i] == front[i]);
            }
        }
    }
}

/// Ids are filename-safe: whatever the name, an id holds letters, digits and dashes only,
/// is not empty and does not start with a dash; and the store accepts it unless the name
/// is longer than an id may be.
pub proof fn lemma_slug_safe(name: Seq<char>, id: Seq<char>)
    requires
        slugged(name, id),
    ensures
        id.len() > 0,
        id[0] != '-',
        forall|i: int| 0 <= i < id.len() ==> store::alphanumeric(#[trigger] id[i]) || id[i] == '-',
        name.len() <= 64 ==> store::valid_id(id),
{
    lemma_dashed(name);
    reveal_strlit("policy-");
    let out = dashed(name);
    if slug_of(name).len() > 0 {
        assert forall|i: int| 0 <= i < id.len() implies store::alphanumeric(#[trigger] id[i])
            || id[i] == '-' by {
            assert(id[i] == out[i]);
        }
        assert(id[0] == out[0]);
    } else {
        let tail = choose|tail: Seq<char>| #[trigger] random_id(tail) && id == "policy-"@ + tail;
        assert forall|i: int| 0 <= i < id.len() implies store::alphanumeric(#[trigger] id[i])
            || id[i] == '-' by {
            if i >= 7 {
                assert(id[i] == tail[i - 7]);
            }
        }
        assert(id.len() == 39);
    }
    assert(vstd::utf8::is_ascii_chars(id));
    vstd::utf8::is_ascii_chars_encode_utf8(id);
}

/// Give a policy that was sent without an id one derived from its name.
pub fn assign_id(policy: Policy) -> (r: Policy)
    ensures
        if text::trimmed(policy.id@).len() == 0 {
            &&& slugged(policy.name@, r.id@)
            &&& r == (Policy { id: r.id, ..policy })
        } else {
            r == policy
        },
{
    if blank(policy.id.as_str()) {
        let id = slug(policy.name.as_str());
        Policy { id, ..policy }
    } else {
        policy
    }
}

/// Why a new policy is refused whose id is taken.
pub fn already_exists(id: &str) -> (r: String)
    ensures
        r@ == "a policy with the id '"@ + id@ + "' already exists"@,
{
    cat3("a policy with the id '", id, "' already exists")
}

// ── Drafts ──────────────────────────────────────────────────────────────────────

fn copy_variables(v: &Vec<Variable>) -> (r: Vec<Variable>)
    ensures
        solver::variables(r@) == solver::variables(v@),
{
    let mut out: Vec<Variable> = Vec::new();
    let mut i: usize = 0;
    while i < v.len()
        invariant
            i <= v@.len(),
            out@.len() == i,
            forall|k: int| 0 <= k < i ==> (#[trigger] out@[k])@ == v@[k]@,
        decreases v@.len() - i,
    {
        out.push(v[i].clone());
        i += 1;
    }
    assert(solver::variables(out@) =~= solver::variables(v@));
    out
}

fn copy_rules(v: &Vec<Rule>) -> (r: Vec<Rule>)
    ensures
        policy::rule_views(r@) == policy::rule_views(v@),
{
    let mut out: Vec<Rule> = Vec::new();
    let mut i: usize = 0;
    while i < v.len()
        invariant
            i <= v@.len(),
            out@.len() == i,
            forall|k: int| 0 <= k < i ==> (#[trigger] out@[k])@ == v@[k]@,
        decreases v@.len() - i,
    {
        out.push(v[i].clone());
        i += 1;
    }
    assert(policy::rule_views(out@) =~= policy::rule_views(v@));
    out
}

/// Compile a draft immediately so the editor opens with the parse errors already
/// attached, rather than the author discovering them one save later.
pub fn draft_errors(draft: &Draft) -> (r: Vec<RuleError>)
    ensures
        exists|env: Sorts| #[trigger]
            policy::is_env(draft.variables@, env) && policy::error_views(r@) == policy::rejected(
                policy::rule_views(draft.rules@),
                env,
            ),
{
    let probe = Policy {
        id: "draft".to_owned(),
        name: "draft".to_owned(),
        description: "".to_owned(),
        version: 1,
        variables: copy_variables(&draft.variables),
        rules: copy_rules(&draft.rules),
        tests: Vec::new(),
        source_document: None,
        created_at: "".to_owned(),
        updated_at: "".to_owned(),
    };
    let compiled = CompiledPolicy::compile(&probe);
    assert(policy::is_env(draft.variables@, compiled.env@)) by {
        assert(policy::is_env(probe.variables@, compiled.env@));
        assert forall|x: Seq<char>| #[trigger] names::lookup(compiled.env@, x) == solver::declared(
            solver::variables(draft.variables@),
            x,
        ) by {}
    }
    compiled.errors
}

// ── Checking ────────────────────────────────────────────────────────────────────

/// The result of checking one answer.
#[derive(Debug)]
pub struct CheckReport {
    pub policy_id: String,
    pub policy_version: u32,
    /// The aggregate over every finding. See [`aggregate`].
    pub result: Verdict,
    pub findings: Vec<Finding>,
    /// The facts taken from the question, echoed so a reader can see what the check
    /// assumed.
    pub premises: Vec<PremiseView>,
    /// Sentences skipped, rules that did not compile, and other gaps.
    pub notes: Vec<String>,
    pub elapsed_ms: u64,
}

/// A fact that a check assumed.
#[derive(Debug)]
pub struct PremiseView {
    pub statement: String,
    pub expression: String,
}

/// A fact by its contents.
#[verifier::ext_equal]
pub struct PremiseV {
    pub statement: Seq<char>,
    pub expression: Seq<char>,
}

impl View for PremiseView {
    type V = PremiseV;

    open spec fn view(&self) -> PremiseV {
        PremiseV { statement: self.statement@, expression: self.expression@ }
    }
}

impl Clone for PremiseView {
    fn clone(&self) -> (r: PremiseView)
        ensures
            r@ == self@,
    {
        PremiseView { statement: self.statement.clone(), expression: self.expression.clone() }
    }
}

/// Facts by their contents.
pub open spec fn premise_views(v: Seq<PremiseView>) -> Seq<PremiseV> {
    Seq::new(v.len(), |i: int| v[i]@)
}

/// Findings by their contents.
pub open spec fn finding_views(v: Seq<Finding>) -> Seq<FindingV> {
    Seq::new(v.len(), |i: int| v[i]@)
}

/// The verdicts of findings.
pub open spec fn verdicts(v: Seq<FindingV>) -> Seq<Verdict> {
    Seq::new(v.len(), |i: int| v[i].verdict)
}

/// The headline over verdicts.
pub open spec fn aggregated(v: Seq<Verdict>) -> Verdict {
    if v.contains(Verdict::Invalid) {
        Verdict::Invalid
    } else if v.contains(Verdict::Impossible) {
        Verdict::Impossible
    } else if v.contains(Verdict::TooComplex) {
        Verdict::TooComplex
    } else if v.contains(Verdict::TranslationAmbiguous) {
        Verdict::TranslationAmbiguous
    } else if v.contains(Verdict::Satisfiable) {
        Verdict::Satisfiable
    } else if v.contains(Verdict::Valid) {
        Verdict::Valid
    } else {
        Verdict::NoTranslations
    }
}

fn any(findings: &[Finding], level: Verdict) -> (b: bool)
    ensures
        b == verdicts(finding_views(findings@)).contains(level),
{
    let ghost all = verdicts(finding_views(findings@));
    let mut i: usize = 0;
    while i < findings.len()
        invariant
            i <= findings@.len(),
            all == verdicts(finding_views(findings@)),
            forall|k: int| 0 <= k < i ==> #[trigger] all[k] != level,
        decreases findings@.len() - i,
    {
        if findings[i].verdict == level {
            assert(all[i as int] == level);
            return true;
        }
        i += 1;
    }
    false
}

/// Fold the findings into one headline verdict.
///
/// Ordered by how much a reader needs to know about it: a single contradiction
/// outranks any number of proofs, and "the solver gave up" outranks a clean pass so a
/// budget exhaustion is never read as approval.
pub fn aggregate(findings: &[Finding]) -> (r: Verdict)
    ensures
        r == aggregated(verdicts(finding_views(findings@))),
{
    if any(findings, Verdict::Invalid) {
        Verdict::Invalid
    } else if any(findings, Verdict::Impossible) {
        Verdict::Impossible
    } else if any(findings, Verdict::TooComplex) {
        Verdict::TooComplex
    } else if any(findings, Verdict::TranslationAmbiguous) {
        Verdict::TranslationAmbiguous
    } else if any(findings, Verdict::Satisfiable) {
        Verdict::Satisfiable
    } else if any(findings, Verdict::Valid) {
        Verdict::Valid
    } else {
        Verdict::NoTranslations
    }
}

/// A single contradiction outranks any number of proofs.
pub proof fn lemma_contradiction_outranks(v: Seq<Verdict>)
    requires
        v.contains(Verdict::Invalid),
    ensures
        aggregated(v) == Verdict::Invalid,
{
}

/// A budget exhaustion is never read as approval, and neither is anything else that falls
/// short of a proof: approval means that something was proved and that every sentence was
/// proved or could not be translated.
pub proof fn lemma_approval_is_proof(v: Seq<Verdict>)
    requires
        aggregated(v) == Verdict::Valid,
    ensures
        v.contains(Verdict::Valid),
        forall|i: int|
            0 <= i < v.len() ==> (#[trigger] v[i]) == Verdict::Valid || v[i]
                == Verdict::NoTranslations,
{
    assert forall|i: int| 0 <= i < v.len() implies (#[trigger] v[i]) == Verdict::Valid || v[i]
        == Verdict::NoTranslations by {
        assert(v.contains(v[i]));
    }
}

/// The headline is that of a finding, and that nothing was translated where there is none.
pub proof fn lemma_headline_found(v: Seq<Verdict>)
    ensures
        v.len() == 0 ==> aggregated(v) == Verdict::NoTranslations,
        v.len() > 0 ==> v.contains(aggregated(v)),
{
    if v.len() > 0 {
        assert(v.contains(v[0]));
    }
}

// ── One claim ───────────────────────────────────────────────────────────────────

/// A formula and its source.
pub type Reading = (Seq<char>, ExprV);

/// The other readings of a sentence that differ from the first and can be expressed.
pub open spec fn other_readings(
    alternatives: Seq<Seq<char>>,
    expression: Seq<char>,
    env: Sorts,
) -> Seq<Reading>
    decreases alternatives.len(),
{
    if alternatives.len() == 0 {
        Seq::empty()
    } else {
        let front = other_readings(alternatives.drop_last(), expression, env);
        let alt = alternatives.last();
        match grammar::parsed(alt, env) {
            Ok(e) => if text::trimmed(alt) != text::trimmed(expression) {
                front.push((alt, e))
            } else {
                front
            },
            Err(_) => front,
        }
    }
}

/// Is that a finding on one reading of a sentence?
pub open spec fn reading_found(
    exact: bool,
    env: Sorts,
    lim: Limits,
    cs: Seq<ConstraintV>,
    statement: Seq<char>,
    reading: Reading,
    f: FindingV,
) -> bool {
    &&& verdict::found(exact, env, lim, cs, reading.1, f)
    &&& f.claim == reading.0
    &&& f.claim_statement == statement
}

/// Are these findings on the first readings?
pub open spec fn readings_found(
    exact: bool,
    env: Sorts,
    lim: Limits,
    cs: Seq<ConstraintV>,
    statement: Seq<char>,
    readings: Seq<Reading>,
    others: Seq<FindingV>,
) -> bool {
    &&& others.len() <= readings.len()
    &&& forall|k: int|
        0 <= k < others.len() ==> reading_found(
            exact,
            env,
            lim,
            cs,
            statement,
            readings[k],
            #[trigger] others[k],
        )
}

/// What is said of readings that disagree.
pub open spec fn disagreement(
    claim: Seq<char>,
    verdict: Verdict,
    other_claim: Seq<char>,
    other_verdict: Verdict,
) -> Seq<char> {
    "This sentence has more than one reasonable reading and they disagree: as `"@ + claim
        + "` it is "@ + verdict::verdict_name(verdict) + ", but as `"@ + other_claim + "` it is "@
        + verdict::verdict_name(other_verdict)
        + ". Sharpen the answer, or add synonyms to the variable descriptions so the reading is unambiguous."@
}

/// A finding that another reading disagrees with.
pub open spec fn ambiguous(f: FindingV, other_claim: Seq<char>, other: Verdict) -> FindingV {
    FindingV {
        verdict: Verdict::TranslationAmbiguous,
        detail: disagreement(f.claim, f.verdict, other_claim, other),
        counterexample: None,
        supporting_example: None,
        ..f
    }
}

/// Is that what is found of a sentence, given the findings on its readings? The other
/// readings are decided in turn, up to the first that disagrees.
pub open spec fn resolved(
    primary: FindingV,
    readings: Seq<Reading>,
    others: Seq<FindingV>,
    f: FindingV,
) -> bool {
    &&& others.len() <= readings.len()
    &&& forall|k: int|
        0 <= k < others.len() - 1 ==> (#[trigger] others[k]).verdict == primary.verdict
    &&& if others.len() > 0 && others.last().verdict != primary.verdict {
        f == ambiguous(primary, readings[others.len() - 1].0, others.last().verdict)
    } else {
        &&& others.len() == readings.len()
        &&& f == primary
    }
}

/// What is said of a sentence that cannot be expressed.
pub open spec fn inexpressible(message: Seq<char>) -> Seq<char> {
    "This sentence could not be expressed in the policy's vocabulary: "@ + message
}

/// Is that what is found of a sentence with a first reading and others?
pub open spec fn sentence_found(
    exact: bool,
    env: Sorts,
    lim: Limits,
    cs: Seq<ConstraintV>,
    statement: Seq<char>,
    reading: Reading,
    readings: Seq<Reading>,
    f: FindingV,
) -> bool {
    exists|primary: FindingV, others: Seq<FindingV>| #[trigger]
        resolved(primary, readings, others, f) && reading_found(
            exact,
            env,
            lim,
            cs,
            statement,
            reading,
            primary,
        ) && readings_found(exact, env, lim, cs, statement, readings, others)
}

/// Is that the finding on a sentence?
pub open spec fn claim_found(
    exact: bool,
    env: Sorts,
    lim: Limits,
    cs: Seq<ConstraintV>,
    claim: ExtractedV,
    f: FindingV,
) -> bool {
    match grammar::parsed(claim.expression, env) {
        Err(e) => f == verdict::plain_finding(
            Verdict::NoTranslations,
            claim.expression,
            claim.statement,
            inexpressible(e.message),
        ),
        Ok(e) => sentence_found(
            exact,
            env,
            lim,
            cs,
            claim.statement,
            (claim.expression, e),
            other_readings(claim.alternatives, claim.expression, env),
            f,
        ),
    }
}

fn check_by(
    env: &Env,
    constraints: &[Constraint],
    expr: &Expr,
    src: &str,
    statement: &str,
    budget: &Budget,
    timed: bool,
) -> (r: Finding)
    ensures
        reading_found(
            !timed,
            env@,
            budget.limits(),
            verdict::constraint_views(constraints@),
            statement@,
            (src@, expr@),
            r@,
        ),
{
    if timed {
        check_claim(env, constraints, expr, src, statement, budget)
    } else {
        check_claim_untimed(env, constraints, expr, src, statement, budget)
    }
}

/// What is said of readings that disagree.
fn explain_disagreement(
    claim: &str,
    verdict: Verdict,
    other_claim: &str,
    other_verdict: Verdict,
) -> (r: String)
    ensures
        r@ == disagreement(claim@, verdict, other_claim@, other_verdict),
{
    let head = cat4(
        "This sentence has more than one reasonable reading and they disagree: as `",
        claim,
        "` it is ",
        verdict.as_str(),
    );
    let both = cat5(head.as_str(), ", but as `", other_claim, "` it is ", other_verdict.as_str());
    cat2(
        both.as_str(),
        ". Sharpen the answer, or add synonyms to the variable descriptions so the reading is unambiguous.",
    )
}

/// Decide one claim, taking its alternative readings into account, by the clock or not.
fn decide_claim_by(
    env: &Env,
    constraints: &[Constraint],
    claim: &Extracted,
    budget: &Budget,
    timed: bool,
) -> (r: Finding)
    ensures
        claim_found(
            !timed,
            env@,
            budget.limits(),
            verdict::constraint_views(constraints@),
            claim@,
            r@,
        ),
        expressed_lawfully(env@, claim@.expression),
{
    let ghost exact = !timed;
    let ghost lim = budget.limits();
    let ghost cs = verdict::constraint_views(constraints@);
    let ghost statement = claim.statement@;
    let ghost alts = text::texts(claim.alternatives@);
    let ghost readings = other_readings(alts, claim.expression@, env@);
    let primary_expr = match parse(claim.expression.as_str(), env) {
        Ok(e) => e,
        Err(e) => {
            return Finding::untranslatable(
                claim.expression.clone(),
                claim.statement.clone(),
                cat2(
                    "This sentence could not be expressed in the policy's vocabulary: ",
                    e.message.as_str(),
                ),
            );
        },
    };
    let primary = check_by(
        env,
        constraints,
        &primary_expr,
        claim.expression.as_str(),
        claim.statement.as_str(),
        budget,
        timed,
    );
    let ghost first = primary@;
    let own = trim(claim.expression.as_str());
    let ghost mut others: Seq<FindingV> = Seq::empty();
    let mut i: usize = 0;
    while i < claim.alternatives.len()
        invariant
            i <= claim.alternatives@.len(),
            exact == !timed,
            lim == budget.limits(),
            cs == verdict::constraint_views(constraints@),
            statement == claim.statement@,
            alts == text::texts(claim.alternatives@),
            own@ == text::trimmed(claim.expression@),
            readings == other_readings(alts, claim.expression@, env@),
            grammar::parsed(claim.expression@, env@) == Ok::<ExprV, ErrV>(
                primary_expr@,
            ),
            grammar::lawful(env@, primary_expr@),
            first == primary@,
            reading_found(
                exact,
                env@,
                lim,
                cs,
                statement,
                (claim.expression@, primary_expr@),
                first,
            ),
            others.len() == other_readings(alts.take(i as int), claim.expression@, env@).len(),
            forall|k: int|
                0 <= k < others.len() ==> (#[trigger] others[k]).verdict == first.verdict,
            readings_found(
                exact,
                env@,
                lim,
                cs,
                statement,
                other_readings(alts.take(i as int), claim.expression@, env@),
                others,
            ),
        decreases claim.alternatives@.len() - i,
    {
        proof {
            assert(alts.take(i + 1).drop_last() =~= alts.take(i as int));
            assert(alts.take(i + 1).last() == alts[i as int]);
        }
        let ghost sofar = other_readings(alts.take(i as int), claim.expression@, env@);
        let ghost next = other_readings(alts.take(i + 1), claim.expression@, env@);
        let alt = &claim.alternatives[i];
        let trimmed = trim(alt.as_str());
        if !same(trimmed.as_str(), own.as_str()) {
            if let Ok(expr) = parse(alt.as_str(), env) {
                let other = check_by(
                    env,
                    constraints,
                    &expr,
                    alt.as_str(),
                    claim.statement.as_str(),
                    budget,
                    timed,
                );
                let ghost before = others;
                proof {
                    assert(next == sofar.push((alt@, expr@)));
                    others = others.push(other@);
                    assert forall|k: int| 0 <= k < others.len() implies reading_found(
                        exact,
                        env@,
                        lim,
                        cs,
                        statement,
                        next[k],
                        #[trigger] others[k],
                    ) by {
                        if k < before.len() {
                            assert(others[k] == before[k]);
                            assert(next[k] == sofar[k]);
                        }
                    }
                }
                if other.verdict != primary.verdict {
                    let detail = explain_disagreement(
                        primary.claim.as_str(),
                        primary.verdict,
                        alt.as_str(),
                        other.verdict,
                    );
                    let f = Finding {
                        verdict: Verdict::TranslationAmbiguous,
                        claim: primary.claim,
                        claim_statement: primary.claim_statement,
                        responsible: primary.responsible,
                        unstated_assumptions: primary.unstated_assumptions,
                        counterexample: None,
                        supporting_example: None,
                        suggestions: primary.suggestions,
                        detail,
                    };
                    proof {
                        lemma_readings_prefix(alts, claim.expression@, env@, i + 1);
                        let n = others.len() - 1;
                        assert(readings[n] == next[n]);
                        assert forall|k: int| 0 <= k < others.len() implies reading_found(
                            exact,
                            env@,
                            lim,
                            cs,
                            statement,
                            readings[k],
                            #[trigger] others[k],
                        ) by {
                            assert(readings[k] == next[k]);
                        }
                        assert(f@ =~= ambiguous(first, readings[n].0, others.last().verdict));
                        assert(resolved(first, readings, others, f@));
                        assert(readings_found(exact, env@, lim, cs, statement, readings, others));
                        assert(sentence_found(
                            exact,
                            env@,
                            lim,
                            cs,
                            statement,
                            (claim.expression@, primary_expr@),
                            readings,
                            f@,
                        ));
                    }
                    return f;
                }
            }
        }
        i += 1;
    }
    assert(alts.take(i as int) =~= alts);
    assert(resolved(first, readings, others, primary@));
    assert(sentence_found(
        exact,
        env@,
        lim,
        cs,
        statement,
        (claim.expression@, primary_expr@),
        readings,
        primary@,
    ));
    primary
}

/// The readings of the first alternatives come first.
proof fn lemma_readings_prefix(
    alts: Seq<Seq<char>>,
    expression: Seq<char>,
    env: Sorts,
    n: int,
)
    requires
        0 <= n <= alts.len(),
    ensures
        other_readings(alts.take(n), expression, env).len() <= other_readings(
            alts,
            expression,
            env,
        ).len(),
        forall|k: int|
            0 <= k < other_readings(alts.take(n), expression, env).len() ==> (
            #[trigger] other_readings(alts, expression, env)[k]) == other_readings(
                alts.take(n),
                expression,
                env,
            )[k],
    decreases alts.len(),
{
    if n < alts.len() {
        let front = alts.drop_last();
        lemma_readings_prefix(front, expression, env, n);
        assert(front.take(n) =~= alts.take(n));
        let a = other_readings(front, expression, env);
        let b = other_readings(alts, expression, env);
        assert forall|k: int|
            0 <= k < other_readings(alts.take(n), expression, env).len() implies #[trigger] b[k]
            == other_readings(alts.take(n), expression, env)[k] by {
            assert(b[k] == a[k]);
        }
    } else {
        assert(alts.take(n) =~= alts);
    }
}

/// Decide one claim, taking its alternative readings into account.
///
/// When the extraction offered other plausible formalizations and they do not all
/// reach the same verdict, the claim is reported as ambiguous rather than resolved.
/// Picking the primary reading would be a coin flip presented as a proof; saying "this sentence has two
/// readings and they disagree" is actionable — it usually means the answer, or a
/// variable description, is genuinely vague.
pub fn decide_claim(
    env: &Env,
    constraints: &[Constraint],
    claim: &Extracted,
    budget: &Budget,
) -> (r: Finding)
    ensures
        claim_found(
            false,
            env@,
            budget.limits(),
            verdict::constraint_views(constraints@),
            claim@,
            r@,
        ),
{
    decide_claim_by(env, constraints, claim, budget, true)
}

// ── A whole answer ──────────────────────────────────────────────────────────────

/// The notes on rules that do not compile.
pub open spec fn rule_notes(errors: Seq<RuleErrV>) -> Seq<Seq<char>> {
    Seq::new(
        errors.len(),
        |i: int|
            "Rule '"@ + errors[i].rule_id + "' was skipped because it does not compile: "@
                + errors[i].error.message,
    )
}

/// The facts that can be expressed, as constraints, numbered by their place.
pub open spec fn fact_constraints(premises: Seq<ExtractedV>, env: Sorts) -> Seq<ConstraintV>
    decreases premises.len(),
{
    if premises.len() == 0 {
        Seq::empty()
    } else {
        let front = fact_constraints(premises.drop_last(), env);
        let p = premises.last();
        match grammar::parsed(p.expression, env) {
            Ok(expr) => front.push(
                ConstraintV {
                    id: "fact-"@ + text::digits(premises.len()),
                    statement: p.statement,
                    expression: p.expression,
                    expr,
                    origin: Origin::Premise,
                },
            ),
            Err(_) => front,
        }
    }
}

/// The facts that can be expressed, as a report shows them.
pub open spec fn facts(premises: Seq<ExtractedV>, env: Sorts) -> Seq<PremiseV>
    decreases premises.len(),
{
    if premises.len() == 0 {
        Seq::empty()
    } else {
        let front = facts(premises.drop_last(), env);
        let p = premises.last();
        match grammar::parsed(p.expression, env) {
            Ok(_) => front.push(PremiseV { statement: p.statement, expression: p.expression }),
            Err(_) => front,
        }
    }
}

/// The notes on facts that cannot be expressed.
pub open spec fn fact_notes(premises: Seq<ExtractedV>, env: Sorts) -> Seq<Seq<char>>
    decreases premises.len(),
{
    if premises.len() == 0 {
        Seq::empty()
    } else {
        let front = fact_notes(premises.drop_last(), env);
        let p = premises.last();
        match grammar::parsed(p.expression, env) {
            Ok(_) => front,
            Err(e) => front.push("Skipped the fact \""@ + p.statement + "\": "@ + e.message),
        }
    }
}

/// What an answer is checked against: the rules of the policy and the facts of the
/// question.
pub open spec fn background(
    rules: Seq<RuleV>,
    premises: Seq<ExtractedV>,
    env: Sorts,
) -> Seq<ConstraintV> {
    policy::compiled(rules, env) + fact_constraints(premises, env)
}

/// Is everything that can be expressed over the declared variables of the policy, each used
/// as its sort says?
pub open spec fn in_vocabulary(
    env: Sorts,
    rules: Seq<RuleV>,
    premises: Seq<ExtractedV>,
    claims: Seq<ExtractedV>,
) -> bool {
    &&& grammar::lawful_all(env, verdict::formulas(background(rules, premises, env)))
    &&& forall|i: int|
        0 <= i < claims.len() ==> expressed_lawfully(env, (#[trigger] claims[i]).expression)
}

/// Is the formula, if it is one, over the declared variables?
pub open spec fn expressed_lawfully(env: Sorts, expression: Seq<char>) -> bool {
    grammar::parsed(expression, env) matches Ok(e) ==> grammar::lawful(env, e)
}

/// Is that the report on an extraction? Each claim is decided against the rules and the
/// facts, and nothing that was skipped goes without a note.
pub open spec fn evaluated(
    exact: bool,
    env: Sorts,
    lim: Limits,
    rules: Seq<RuleV>,
    extraction: ExtractionV,
    r: CheckReport,
) -> bool {
    &&& r.findings@.len() == extraction.claims.len()
    &&& forall|i: int|
        0 <= i < extraction.claims.len() ==> claim_found(
            exact,
            env,
            lim,
            background(rules, extraction.premises, env),
            extraction.claims[i],
            #[trigger] finding_views(r.findings@)[i],
        )
    &&& in_vocabulary(env, rules, extraction.premises, extraction.claims)
    &&& r.result == aggregated(verdicts(finding_views(r.findings@)))
    &&& premise_views(r.premises@) == facts(extraction.premises, env)
    &&& text::texts(r.notes@) == extraction.notes + rule_notes(policy::rejected(rules, env))
        + fact_notes(extraction.premises, env)
}

/// Add the notes on rules that do not compile.
fn note_rules(notes: &mut Vec<String>, errors: &Vec<RuleError>)
    ensures
        text::texts(final(notes)@) == text::texts(old(notes)@) + rule_notes(
            policy::error_views(errors@),
        ),
{
    let ghost before = text::texts(notes@);
    let ghost all = rule_notes(policy::error_views(errors@));
    let mut i: usize = 0;
    assert(before + all.take(0) =~= before);
    while i < errors.len()
        invariant
            i <= errors@.len(),
            all == rule_notes(policy::error_views(errors@)),
            text::texts(notes@) == before + all.take(i as int),
        decreases errors@.len() - i,
    {
        let ghost n0 = notes@;
        let note = cat4(
            "Rule '",
            errors[i].rule_id.as_str(),
            "' was skipped because it does not compile: ",
            errors[i].message.as_str(),
        );
        let ghost view = note@;
        notes.push(note);
        proof {
            assert(text::texts(notes@) =~= text::texts(n0).push(view));
            assert(view == all[i as int]);
            assert(all.take(i + 1) =~= all.take(i as int).push(view));
        }
        i += 1;
    }
    assert(all.take(i as int) =~= all);
}

/// Add the facts to the constraints, to the report and to the notes.
fn take_facts(
    env: &Env,
    premises: &Vec<Extracted>,
    constraints: &mut Vec<Constraint>,
    notes: &mut Vec<String>,
) -> (r: Vec<PremiseView>)
    requires
        grammar::lawful_all(
            env@,
            verdict::formulas(verdict::constraint_views(old(constraints)@)),
        ),
    ensures
        grammar::lawful_all(
            env@,
            verdict::formulas(verdict::constraint_views(final(constraints)@)),
        ),
        premise_views(r@) == facts(translate::sentences(premises@), env@),
        verdict::constraint_views(final(constraints)@) == verdict::constraint_views(
            old(constraints)@,
        ) + fact_constraints(translate::sentences(premises@), env@),
        text::texts(final(notes)@) == text::texts(old(notes)@) + fact_notes(
            translate::sentences(premises@),
            env@,
        ),
{
    let ghost all = translate::sentences(premises@);
    let ghost cs = verdict::constraint_views(constraints@);
    let ghost said = text::texts(notes@);
    let mut views: Vec<PremiseView> = Vec::new();
    let mut i: usize = 0;
    proof {
        assert(premise_views(views@) =~= Seq::empty());
        assert(cs + fact_constraints(all.take(0), env@) =~= cs);
        assert(said + fact_notes(all.take(0), env@) =~= said);
    }
    while i < premises.len()
        invariant
            i <= premises@.len(),
            all == translate::sentences(premises@),
            premise_views(views@) == facts(all.take(i as int), env@),
            grammar::lawful_all(
                env@,
                verdict::formulas(verdict::constraint_views(constraints@)),
            ),
            verdict::constraint_views(constraints@) == cs + fact_constraints(
                all.take(i as int),
                env@,
            ),
            text::texts(notes@) == said + fact_notes(all.take(i as int), env@),
        decreases premises@.len() - i,
    {
        proof {
            assert(all.take(i + 1).drop_last() =~= all.take(i as int));
            assert(all.take(i + 1).last() == all[i as int]);
        }
        let ghost (c0, n0, v0) = (constraints@, notes@, views@);
        let premise = &premises[i];
        let number = count(i + 1);
        match parse(premise.expression.as_str(), env) {
            Ok(expr) => {
                let c = Constraint {
                    id: cat2("fact-", number.as_str()),
                    statement: premise.statement.clone(),
                    expression: premise.expression.clone(),
                    expr,
                    origin: Origin::Premise,
                };
                let ghost cv = c@;
                constraints.push(c);
                let v = PremiseView {
                    statement: premise.statement.clone(),
                    expression: premise.expression.clone(),
                };
                let ghost vv = v@;
                views.push(v);
                proof {
                    assert(verdict::constraint_views(constraints@)
                        =~= verdict::constraint_views(c0).push(cv));
                    assert(verdict::formulas(verdict::constraint_views(constraints@))
                        =~= verdict::formulas(verdict::constraint_views(c0)).push(cv.expr));
                    assert(premise_views(views@) =~= premise_views(v0).push(vv));
                    assert(cs + fact_constraints(all.take(i + 1), env@) =~= (cs + fact_constraints(
                        all.take(i as int),
                        env@,
                    )).push(cv));
                }
            },
            Err(e) => {
                let note = cat4(
                    "Skipped the fact \"",
                    premise.statement.as_str(),
                    "\": ",
                    e.message.as_str(),
                );
                let ghost view = note@;
                notes.push(note);
                proof {
                    assert(text::texts(notes@) =~= text::texts(n0).push(view));
                    assert(said + fact_notes(all.take(i + 1), env@) =~= (said + fact_notes(
                        all.take(i as int),
                        env@,
                    )).push(view));
                }
            },
        }
        i += 1;
    }
    assert(all.take(i as int) =~= all);
    views
}

/// Decide every claim in an extraction, by the clock or not.
fn evaluate_by(policy: &Policy, extraction: &Extraction, budget: &Budget, timed: bool) -> (r:
    CheckReport)
    ensures
        r.policy_id@ == policy.id@,
        r.policy_version == policy.version,
        exists|env: Sorts| #[trigger]
            policy::is_env(policy.variables@, env) && evaluated(
                !timed,
                env,
                budget.limits(),
                policy::rule_views(policy.rules@),
                extraction@,
                r,
            ),
{
    let started = now();
    let ghost exact = !timed;
    let ghost lim = budget.limits();
    let ghost rules = policy::rule_views(policy.rules@);
    let compiled = CompiledPolicy::compile(policy);
    let env = compiled.env;
    let mut constraints = compiled.constraints;
    let mut notes = copy_texts(&extraction.notes);
    note_rules(&mut notes, &compiled.errors);
    assert(grammar::lawful_all(
        env@,
        verdict::formulas(verdict::constraint_views(constraints@)),
    )) by {
        let fs = verdict::formulas(verdict::constraint_views(constraints@));
        assert forall|k: int| 0 <= k < fs.len() implies grammar::lawful(env@, #[trigger] fs[k]) by {
            assert(fs[k] == constraints@[k].expr@);
        }
    }
    // Premises constrain the check but are never checked themselves.
    let premises = take_facts(&env, &extraction.premises, &mut constraints, &mut notes);
    let ghost cs = background(rules, extraction@.premises, env@);
    let ghost claims = extraction@.claims;
    let mut findings: Vec<Finding> = Vec::new();
    let mut i: usize = 0;
    while i < extraction.claims.len()
        invariant
            i <= extraction.claims@.len(),
            findings@.len() == i,
            exact == !timed,
            lim == budget.limits(),
            cs == verdict::constraint_views(constraints@),
            claims == translate::sentences(extraction.claims@),
            forall|k: int|
                0 <= k < i ==> expressed_lawfully(env@, (#[trigger] claims[k]).expression),
            forall|k: int|
                0 <= k < i ==> claim_found(
                    exact,
                    env@,
                    lim,
                    cs,
                    claims[k],
                    #[trigger] finding_views(findings@)[k],
                ),
        decreases extraction.claims@.len() - i,
    {
        let ghost f0 = findings@;
        let f = decide_claim_by(
            &env,
            constraints.as_slice(),
            &extraction.claims[i],
            budget,
            timed,
        );
        let ghost view = f@;
        findings.push(f);
        proof {
            assert forall|k: int| 0 <= k < i + 1 implies claim_found(
                exact,
                env@,
                lim,
                cs,
                claims[k],
                #[trigger] finding_views(findings@)[k],
            ) by {
                if k < i {
                    assert(finding_views(findings@)[k] == finding_views(f0)[k]);
                }
            }
        }
        i += 1;
    }
    let r = CheckReport {
        policy_id: policy.id.clone(),
        policy_version: policy.version,
        result: aggregate(findings.as_slice()),
        findings,
        premises,
        notes,
        elapsed_ms: whole_millis(nanos_since(&started)),
    };
    assert(policy::is_env(policy.variables@, env@));
    assert(evaluated(exact, env@, lim, rules, extraction@, r));
    r
}

/// Decide every claim in an extraction against a policy.
///
/// Pure but for the time limit: the same policy and extraction produce the same report,
/// which is what makes a finding reproducible and the test suite meaningful.
pub fn evaluate(policy: &Policy, extraction: &Extraction, budget: &Budget) -> (r: CheckReport)
    ensures
        r.policy_id@ == policy.id@,
        r.policy_version == policy.version,
        exists|env: Sorts| #[trigger]
            policy::is_env(policy.variables@, env) && evaluated(
                false,
                env,
                budget.limits(),
                policy::rule_views(policy.rules@),
                extraction@,
                r,
            ),
{
    evaluate_by(policy, extraction, budget, true)
}

/// Decide every claim in an extraction without a time limit.
pub fn evaluate_untimed(policy: &Policy, extraction: &Extraction, budget: &Budget) -> (r:
    CheckReport)
    ensures
        r.policy_id@ == policy.id@,
        r.policy_version == policy.version,
        exists|env: Sorts| #[trigger]
            policy::is_env(policy.variables@, env) && evaluated(
                true,
                env,
                budget.limits(),
                policy::rule_views(policy.rules@),
                extraction@,
                r,
            ),
{
    evaluate_by(policy, extraction, budget, false)
}

// ── Laws of reports ─────────────────────────────────────────────────────────────

/// Without a time limit a sentence has one finding.
pub proof fn lemma_one_claim(
    env: Sorts,
    lim: Limits,
    cs: Seq<ConstraintV>,
    claim: ExtractedV,
    f: FindingV,
    g: FindingV,
)
    requires
        claim_found(true, env, lim, cs, claim, f),
        claim_found(true, env, lim, cs, claim, g),
    ensures
        f == g,
{
    if let Ok(e) = grammar::parsed(claim.expression, env) {
        let readings = other_readings(claim.alternatives, claim.expression, env);
        let s = claim.statement;
        let first = (claim.expression, e);
        let (p1, o1) = choose|primary: FindingV, others: Seq<FindingV>| #[trigger]
            resolved(primary, readings, others, f) && reading_found(
                true,
                env,
                lim,
                cs,
                s,
                first,
                primary,
            ) && readings_found(true, env, lim, cs, s, readings, others);
        let (p2, o2) = choose|primary: FindingV, others: Seq<FindingV>| #[trigger]
            resolved(primary, readings, others, g) && reading_found(
                true,
                env,
                lim,
                cs,
                s,
                first,
                primary,
            ) && readings_found(true, env, lim, cs, s, readings, others);
        verdict::lemma_one_finding(env, lim, cs, e, p1, p2);
        let n = if o1.len() <= o2.len() {
            o1.len() as int
        } else {
            o2.len() as int
        };
        assert forall|k: int| 0 <= k < n implies #[trigger] o1[k] == o2[k] by {
            assert(reading_found(true, env, lim, cs, s, readings[k], o1[k]));
            assert(reading_found(true, env, lim, cs, s, readings[k], o2[k]));
            verdict::lemma_one_finding(env, lim, cs, readings[k].1, o1[k], o2[k]);
        }
        if o1.len() != o2.len() {
            assert(o1[n - 1] == o2[n - 1]);
            assert(n > 0);
        }
        assert(o1 =~= o2);
    }
}

/// The same policy and the same extraction give the same report, but for the time it
/// took, where no time limit cuts a question short.
pub proof fn lemma_report_reproducible(
    vars: Seq<Variable>,
    rules: Seq<RuleV>,
    lim: Limits,
    extraction: ExtractionV,
    env1: Sorts,
    r1: CheckReport,
    env2: Sorts,
    r2: CheckReport,
)
    requires
        policy::is_env(vars, env1),
        policy::is_env(vars, env2),
        evaluated(true, env1, lim, rules, extraction, r1),
        evaluated(true, env2, lim, rules, extraction, r2),
    ensures
        r1.result == r2.result,
        finding_views(r1.findings@) == finding_views(r2.findings@),
        premise_views(r1.premises@) == premise_views(r2.premises@),
        text::texts(r1.notes@) == text::texts(r2.notes@),
{
    policy::lemma_one_env(vars, env1, env2);
    let (a, b) = (finding_views(r1.findings@), finding_views(r2.findings@));
    let cs = background(rules, extraction.premises, env1);
    assert forall|i: int| 0 <= i < a.len() implies a[i] == b[i] by {
        lemma_one_claim(env1, lim, cs, extraction.claims[i], a[i], b[i]);
    }
    assert(a =~= b);
}

/// What the findings of a report mean. A proved sentence was expressed in the vocabulary
/// of the policy and follows from its rules and the facts, a contradicted one is refuted by
/// them, and a sentence that cannot be expressed is never anything but untranslated.
pub proof fn lemma_claim_means(
    exact: bool,
    env: Sorts,
    lim: Limits,
    cs: Seq<ConstraintV>,
    claim: ExtractedV,
    f: FindingV,
)
    requires
        claim_found(exact, env, lim, cs, claim, f),
    ensures
        match grammar::parsed(claim.expression, env) {
            Err(_) => f.verdict == Verdict::NoTranslations,
            Ok(e) => {
                &&& f.verdict != Verdict::NoTranslations
                &&& f.verdict == Verdict::Valid ==> semantics::entails(
                    env,
                    verdict::formulas(cs),
                    e,
                )
                &&& f.verdict == Verdict::Invalid ==> semantics::entails(
                    env,
                    verdict::formulas(cs),
                    logic::negation(e),
                )
                &&& f.verdict == Verdict::Impossible ==> !semantics::satisfiable(
                    env,
                    verdict::formulas(cs),
                )
            },
        },
{
    if let Ok(e) = grammar::parsed(claim.expression, env) {
        let readings = other_readings(claim.alternatives, claim.expression, env);
        let (p, o) = choose|primary: FindingV, others: Seq<FindingV>| #[trigger]
            resolved(primary, readings, others, f) && reading_found(
                exact,
                env,
                lim,
                cs,
                claim.statement,
                (claim.expression, e),
                primary,
            ) && readings_found(exact, env, lim, cs, claim.statement, readings, others);
        verdict::lemma_verdict_means(exact, env, lim, cs, e, p);
    }
}

/// A contradictory policy passes nothing: where the rules and the facts contradict each
/// other, no claim is reported as proved, refuted or open, and neither is the answer.
pub proof fn lemma_contradiction_passes_nothing(
    exact: bool,
    env: Sorts,
    lim: Limits,
    rules: Seq<RuleV>,
    extraction: ExtractionV,
    r: CheckReport,
    i: int,
)
    requires
        evaluated(exact, env, lim, rules, extraction, r),
        !semantics::satisfiable(
            env,
            verdict::formulas(background(rules, extraction.premises, env)),
        ),
        0 <= i < extraction.claims.len(),
    ensures
        settled_nothing(finding_views(r.findings@)[i].verdict),
        settled_nothing(r.result),
{
    let fs = finding_views(r.findings@);
    assert forall|k: int| 0 <= k < fs.len() implies settled_nothing(
        #[trigger] verdicts(fs)[k],
    ) by {
        lemma_contradicted_claim(exact, env, lim, rules, extraction, r, k);
    }
    assert(verdicts(fs)[i] == fs[i].verdict);
    lemma_headline_found(verdicts(fs));
    let j = verdicts(fs).index_of(r.result);
    assert(settled_nothing(verdicts(fs)[j]));
}

/// Is the verdict none that says something of the claim?
pub open spec fn settled_nothing(v: Verdict) -> bool {
    v != Verdict::Valid && v != Verdict::Invalid && v != Verdict::Satisfiable
}

proof fn lemma_contradicted_claim(
    exact: bool,
    env: Sorts,
    lim: Limits,
    rules: Seq<RuleV>,
    extraction: ExtractionV,
    r: CheckReport,
    i: int,
)
    requires
        evaluated(exact, env, lim, rules, extraction, r),
        !semantics::satisfiable(
            env,
            verdict::formulas(background(rules, extraction.premises, env)),
        ),
        0 <= i < extraction.claims.len(),
    ensures
        settled_nothing(finding_views(r.findings@)[i].verdict),
{
    let f = finding_views(r.findings@)[i];
    let claim = extraction.claims[i];
    let cs = background(rules, extraction.premises, env);
    let all = verdict::formulas(cs);
    assert(claim_found(exact, env, lim, cs, claim, f));
    assert(expressed_lawfully(env, claim.expression));
    if let Ok(e) = grammar::parsed(claim.expression, env) {
        let readings = other_readings(claim.alternatives, claim.expression, env);
        let (p, o) = choose|primary: FindingV, others: Seq<FindingV>| #[trigger]
            resolved(primary, readings, others, f) && reading_found(
                exact,
                env,
                lim,
                cs,
                claim.statement,
                (claim.expression, e),
                primary,
            ) && readings_found(exact, env, lim, cs, claim.statement, readings, others);
        assert(grammar::lawful_all(env, all.push(e)));
        grammar::lemma_lawful_sorted(env, all.push(e));
        verdict::lemma_verdict_cautious(exact, env, lim, cs, e, p);
    }
}

/// An approved answer is proved: where the headline is approval, every claim that could be
/// expressed follows from the rules and the facts, and at least one could be.
pub proof fn lemma_approved_answer(
    exact: bool,
    env: Sorts,
    lim: Limits,
    rules: Seq<RuleV>,
    extraction: ExtractionV,
    r: CheckReport,
    i: int,
)
    requires
        evaluated(exact, env, lim, rules, extraction, r),
        r.result == Verdict::Valid,
        0 <= i < extraction.claims.len(),
    ensures
        grammar::parsed(extraction.claims[i].expression, env) matches Ok(e) ==> semantics::entails(
            env,
            verdict::formulas(background(rules, extraction.premises, env)),
            e,
        ),
        exists|j: int|
            0 <= j < extraction.claims.len() && grammar::parsed(
                (#[trigger] extraction.claims[j]).expression,
                env,
            ) is Ok,
{
    let fs = finding_views(r.findings@);
    let cs = background(rules, extraction.premises, env);
    lemma_approval_is_proof(verdicts(fs));
    assert(verdicts(fs)[i] == fs[i].verdict);
    lemma_claim_means(exact, env, lim, cs, extraction.claims[i], fs[i]);
    let j = choose|j: int| 0 <= j < fs.len() && #[trigger] verdicts(fs)[j] == Verdict::Valid;
    assert(fs[j].verdict == Verdict::Valid);
    lemma_claim_means(exact, env, lim, cs, extraction.claims[j], fs[j]);
    assert(grammar::parsed(extraction.claims[j].expression, env) is Ok);
}

// ── The test suite of a policy ──────────────────────────────────────────────────

/// The outcome of a policy's test cases.
#[derive(Debug)]
pub struct TestRun {
    pub passed: usize,
    pub failed: usize,
    pub results: Vec<TestResult>,
}

/// The outcome of one test case.
#[derive(Debug)]
pub struct TestResult {
    pub id: String,
    pub passed: bool,
    pub expected: Verdict,
    pub actual: Verdict,
    pub report: Option<CheckReport>,
    pub error: Option<String>,
}

/// Judge a test case by the report on its answer, or by the reason why there is none.
pub fn judge(case: &TestCase, outcome: Result<CheckReport, String>) -> (r: TestResult)
    ensures
        r.id@ == case.id@,
        r.expected == case.expected,
        match outcome {
            Ok(report) => {
                &&& r.passed == (report.result == case.expected)
                &&& r.actual == report.result
                &&& r.report == Some(report)
                &&& r.error is None
            },
            Err(e) => {
                &&& !r.passed
                &&& r.actual == Verdict::NoTranslations
                &&& r.report is None
                &&& r.error == Some(e)
            },
        },
{
    match outcome {
        Ok(report) => {
            let actual = report.result;
            TestResult {
                id: case.id.clone(),
                passed: actual == case.expected,
                expected: case.expected,
                actual,
                report: Some(report),
                error: None,
            }
        },
        Err(e) => TestResult {
            id: case.id.clone(),
            passed: false,
            expected: case.expected,
            actual: Verdict::NoTranslations,
            report: None,
            error: Some(e),
        },
    }
}

/// How many results passed.
pub open spec fn passes(results: Seq<TestResult>) -> nat
    decreases results.len(),
{
    if results.len() == 0 {
        0
    } else {
        passes(results.drop_last()) + if results.last().passed {
            1nat
        } else {
            0nat
        }
    }
}

/// Count the results.
pub fn tally(results: Vec<TestResult>) -> (r: TestRun)
    ensures
        r.results == results,
        r.passed == passes(results@),
        r.passed + r.failed == results@.len(),
{
    let n = results.len();
    let mut passed: usize = 0;
    let mut i: usize = 0;
    while i < n
        invariant
            i <= n,
            n == results@.len(),
            passed <= i,
            passed == passes(results@.take(i as int)),
        decreases n - i,
    {
        proof {
            assert(results@.take(i + 1).drop_last() =~= results@.take(i as int));
            assert(results@.take(i + 1).last() == results@[i as int]);
        }
        if results[i].passed {
            passed = passed + 1;
        }
        i += 1;
    }
    assert(results@.take(i as int) =~= results@);
    TestRun { passed, failed: n - passed, results }
}

// ── Summaries ───────────────────────────────────────────────────────────────────

/// Values by name.
pub type Assigned = Map<Seq<char>, Seq<char>>;

/// With the values of entries, as they are shown.
pub open spec fn with_entries(m: Assigned, entries: Entries) -> Assigned
    decreases entries.len(),
{
    if entries.len() == 0 {
        m
    } else {
        with_entries(m, entries.drop_last()).insert(
            entries.last().0,
            solver::rendered(entries.last().1),
        )
    }
}

/// With the values that suggestions mention.
pub open spec fn with_suggestions(m: Assigned, suggestions: Seq<SuggestionV>) -> Assigned
    decreases suggestions.len(),
{
    if suggestions.len() == 0 {
        m
    } else {
        with_entries(
            with_suggestions(m, suggestions.drop_last()),
            suggestions.last().assignments,
        )
    }
}

/// The values that findings mention; of a name that several mention, the last.
pub open spec fn assigned(findings: Seq<FindingV>) -> Assigned
    decreases findings.len(),
{
    if findings.len() == 0 {
        Map::empty()
    } else {
        with_suggestions(assigned(findings.drop_last()), findings.last().suggestions)
    }
}

fn put_entries(out: &mut NameMap<String>, entries: &NameMap<Value>)
    ensures
        names::as_map(final(out)@) == with_entries(names::as_map(old(out)@), entries@),
{
    let ghost all = entries@;
    let ghost before = names::as_map(out@);
    let mut i: usize = 0;
    let n = entries.len();
    assert(all.take(0) =~= Seq::empty());
    while i < n
        invariant
            i <= n,
            n == all.len(),
            all == entries@,
            names::as_map(out@) == with_entries(before, all.take(i as int)),
        decreases n - i,
    {
        proof {
            assert(all.take(i + 1).drop_last() =~= all.take(i as int));
            assert(all.take(i + 1).last() == all[i as int]);
        }
        let ghost o0 = out@;
        let name = entries.name_at(i).clone();
        let value = entries.value_at(i).render();
        let ghost (x, v) = (name@, value@);
        out.insert(name, value);
        assert(names::as_map(out@) =~= names::as_map(o0).insert(x, v)) by {
            assert forall|y: Seq<char>| #[trigger]
                names::as_map(out@).dom().contains(y) == names::as_map(o0).insert(
                    x,
                    v,
                ).dom().contains(y) by {
                assert(names::named(out@, y) == (y == x || names::named(o0, y)));
            }
            assert forall|y: Seq<char>| names::as_map(out@).dom().contains(y) implies #[trigger]
                names::as_map(out@)[y] == names::as_map(o0).insert(x, v)[y] by {
                assert(names::lookup(out@, y) == if y == x {
                    Some(v)
                } else {
                    names::lookup(o0, y)
                });
                assert(names::named(out@, y) == (y == x || names::named(o0, y)));
            }
        }
        i += 1;
    }
    assert(all.take(i as int) =~= all);
}

fn put_suggestions(out: &mut NameMap<String>, suggestions: &Vec<Suggestion>)
    ensures
        names::as_map(final(out)@) == with_suggestions(
            names::as_map(old(out)@),
            verdict::suggestion_views(suggestions@),
        ),
{
    let ghost all = verdict::suggestion_views(suggestions@);
    let ghost before = names::as_map(out@);
    let mut i: usize = 0;
    while i < suggestions.len()
        invariant
            i <= suggestions@.len(),
            all == verdict::suggestion_views(suggestions@),
            names::as_map(out@) == with_suggestions(before, all.take(i as int)),
        decreases suggestions@.len() - i,
    {
        proof {
            assert(all.take(i + 1).drop_last() =~= all.take(i as int));
            assert(all.take(i + 1).last() == all[i as int]);
        }
        put_entries(out, &suggestions[i].assignments);
        i += 1;
    }
    assert(all.take(i as int) =~= all);
}

/// Variable values mentioned by a report, flattened for callers that want a summary
/// rather than the full findings tree.
pub fn assignments_of(report: &CheckReport) -> (r: NameMap<String>)
    ensures
        names::ordered(r@),
        names::as_map(r@) == assigned(finding_views(report.findings@)),
{
    let ghost all = finding_views(report.findings@);
    let mut out: NameMap<String> = NameMap::new();
    let mut i: usize = 0;
    assert(names::as_map(out@) =~= Map::empty());
    while i < report.findings.len()
        invariant
            i <= report.findings@.len(),
            all == finding_views(report.findings@),
            names::as_map(out@) == assigned(all.take(i as int)),
        decreases report.findings@.len() - i,
    {
        proof {
            assert(all.take(i + 1).drop_last() =~= all.take(i as int));
            assert(all.take(i + 1).last() == all[i as int]);
        }
        put_suggestions(&mut out, &report.findings[i].suggestions);
        i += 1;
    }
    proof {
        assert(all.take(i as int) =~= all);
        use_type_invariant(&out);
        out.lemma_wf();
    }
    out
}

// ── The check surface ───────────────────────────────────────────────────────────

/// The names of verdicts.
pub open spec fn verdict_list() -> Seq<JsonV> {
    seq![
        JsonV::Text(verdict::verdict_name(Verdict::Valid)),
        JsonV::Text(verdict::verdict_name(Verdict::Invalid)),
        JsonV::Text(verdict::verdict_name(Verdict::Satisfiable)),
        JsonV::Text(verdict::verdict_name(Verdict::Impossible)),
        JsonV::Text(verdict::verdict_name(Verdict::NoTranslations)),
        JsonV::Text(verdict::verdict_name(Verdict::TranslationAmbiguous)),
        JsonV::Text(verdict::verdict_name(Verdict::TooComplex)),
    ]
}

/// A route that is posted to.
pub open spec fn posted(body: JsonV, path: Seq<char>) -> JsonV {
    JsonV::Object(
        seq![("body"@, body), ("method"@, JsonV::Text("POST"@)), ("path"@, JsonV::Text(path))],
    )
}

/// The description of the check surface.
pub open spec fn surface() -> JsonV {
    let expressions = JsonV::List(seq![JsonV::Text("expression"@)]);
    let string = JsonV::Text("string"@);
    let check = posted(
        JsonV::Object(seq![("answer"@, string), ("policy_id"@, string), ("question"@, string)]),
        "/check"@,
    );
    let solve = posted(
        JsonV::Object(
            seq![("claims"@, expressions), ("policy_id"@, string), ("premises"@, expressions)],
        ),
        "/solve"@,
    );
    JsonV::Object(
        seq![
            ("capability"@, JsonV::Text("reasoning.check"@)),
            ("routes"@, JsonV::Object(seq![("check"@, check), ("solve"@, solve)])),
            ("verdicts"@, JsonV::List(verdict_list())),
            ("version"@, JsonV::Text("1.0.0"@)),
        ],
    )
}

fn post_route(body: Json, path: &str) -> (r: Json)
    ensures
        r@ == posted(body@, path@),
{
    object3("body", body, "method", text_value("POST"), "path", text_value(path))
}

fn expression_list() -> (r: Json)
    ensures
        r@ == JsonV::List(seq![JsonV::Text("expression"@)]),
{
    let items: Vec<Json> = vec![text_value("expression")];
    assert(json::item_views(items@) =~= seq![JsonV::Text("expression"@)]);
    list_value(items)
}

/// A machine-readable description of the check surface, served at `/capability` for
/// the capability broker.
pub fn capability_descriptor() -> (r: Json)
    ensures
        r@ == surface(),
{
    let names: Vec<Json> = vec![
        text_value(Verdict::Valid.as_str()),
        text_value(Verdict::Invalid.as_str()),
        text_value(Verdict::Satisfiable.as_str()),
        text_value(Verdict::Impossible.as_str()),
        text_value(Verdict::NoTranslations.as_str()),
        text_value(Verdict::TranslationAmbiguous.as_str()),
        text_value(Verdict::TooComplex.as_str()),
    ];
    assert(json::item_views(names@) =~= verdict_list());
    let check = post_route(
        object3(
            "answer",
            text_value("string"),
            "policy_id",
            text_value("string"),
            "question",
            text_value("string"),
        ),
        "/check",
    );
    let solve = post_route(
        object3(
            "claims",
            expression_list(),
            "policy_id",
            text_value("string"),
            "premises",
            expression_list(),
        ),
        "/solve",
    );
    let members: Vec<(String, Json)> = vec![
        ("capability".to_owned(), text_value("reasoning.check")),
        ("routes".to_owned(), object2("check", check, "solve", solve)),
        ("verdicts".to_owned(), list_value(names)),
        ("version".to_owned(), text_value("1.0.0")),
    ];
    proof {
        json::lemma_object_view(members);
        assert(json::member_views(members@) =~= surface()->Object_0);
    }
    Json::Object(members)
}

// ── What a selection keeps ──────────────────────────────────────────────────────

/// The other readings of a sentence are exactly the alternatives that parse and differ from
/// its expression, in order, each with the formula that it denotes.
pub proof fn lemma_other_readings(alternatives: Seq<Seq<char>>, expression: Seq<char>, env: Sorts) -> (at: Seq<int>)
    ensures
        lists::ascending(at, alternatives.len() as int),
        other_readings(alternatives, expression, env).len() == at.len(),
        forall|k: int|
            #![trigger at[k]]
            0 <= k < at.len() ==> {
                &&& grammar::parsed(alternatives[at[k]], env) is Ok
                    && text::trimmed(alternatives[at[k]]) != text::trimmed(expression)
                &&& other_readings(alternatives, expression, env)[k].0 == alternatives[at[k]]
                    && grammar::parsed(alternatives[at[k]], env)
                    == Ok::<ExprV, ErrV>(other_readings(alternatives, expression, env)[k].1)
            },
        forall|i: int|
            #![trigger alternatives[i]]
            0 <= i < alternatives.len() && grammar::parsed(alternatives[i], env) is Ok
                && text::trimmed(alternatives[i]) != text::trimmed(expression) ==> at.contains(i),
    decreases alternatives.len(),
{
    if alternatives.len() == 0 {
        Seq::empty()
    } else {
        let init = alternatives.drop_last();
        let n = init.len() as int;
        let front = lemma_other_readings(init, expression, env);
        lists::lemma_extended(front, n);
        let e = alternatives[n];
        let at = if grammar::parsed(e, env) is Ok && text::trimmed(e) != text::trimmed(expression) {
            front.push(n)
        } else {
            front
        };
        assert forall|k: int| #![trigger at[k]] 0 <= k < at.len() implies {
            &&& grammar::parsed(alternatives[at[k]], env) is Ok
                && text::trimmed(alternatives[at[k]]) != text::trimmed(expression)
            &&& other_readings(alternatives, expression, env)[k].0 == alternatives[at[k]]
                && grammar::parsed(alternatives[at[k]], env)
                == Ok::<ExprV, ErrV>(other_readings(alternatives, expression, env)[k].1)
        } by {
            if k < front.len() {
                assert(other_readings(init, expression, env)[k]
                    == other_readings(alternatives, expression, env)[k]);
                assert(init[front[k]] == alternatives[front[k]]);
            }
        }
        assert forall|i: int|
            #![trigger alternatives[i]]
            0 <= i < alternatives.len() && grammar::parsed(alternatives[i], env) is Ok
                && text::trimmed(alternatives[i]) != text::trimmed(expression)
                implies at.contains(i) by {
            if i < n {
                assert(init[i] == alternatives[i]);
                assert(front.contains(i));
            }
        }
        at
    }
}

/// Every fact that can be expressed constrains the check: the constraints from the question
/// are exactly those facts, in order, each with its formula, its statement and its
/// origin, numbered by its place.
pub proof fn lemma_fact_constraints(premises: Seq<ExtractedV>, env: Sorts) -> (at: Seq<int>)
    ensures
        lists::ascending(at, premises.len() as int),
        fact_constraints(premises, env).len() == at.len(),
        forall|k: int|
            #![trigger at[k]]
            0 <= k < at.len() ==> {
                &&& grammar::parsed(premises[at[k]].expression, env) is Ok
                &&& fact_constraints(premises, env)[k].id
                    == "fact-"@ + text::digits((at[k] + 1) as nat)
                &&& fact_constraints(premises, env)[k].statement == premises[at[k]].statement
                    && fact_constraints(premises, env)[k].expression == premises[at[k]].expression
                &&& fact_constraints(premises, env)[k].origin == Origin::Premise
                &&& grammar::parsed(premises[at[k]].expression, env)
                    == Ok::<ExprV, ErrV>(fact_constraints(premises, env)[k].expr)
            },
        forall|i: int|
            #![trigger premises[i]]
            0 <= i < premises.len() && grammar::parsed(premises[i].expression, env) is Ok
                ==> at.contains(i),
    decreases premises.len(),
{
    if premises.len() == 0 {
        Seq::empty()
    } else {
        let init = premises.drop_last();
        let n = init.len() as int;
        let front = lemma_fact_constraints(init, env);
        lists::lemma_extended(front, n);
        let e = premises[n];
        let at = if grammar::parsed(e.expression, env) is Ok {
            front.push(n)
        } else {
            front
        };
        assert forall|k: int| #![trigger at[k]] 0 <= k < at.len() implies {
            &&& grammar::parsed(premises[at[k]].expression, env) is Ok
            &&& fact_constraints(premises, env)[k].id == "fact-"@ + text::digits((at[k] + 1) as nat)
                &&& fact_constraints(premises, env)[k].statement == premises[at[k]].statement
                    && fact_constraints(premises, env)[k].expression == premises[at[k]].expression
                &&& fact_constraints(premises, env)[k].origin == Origin::Premise
                &&& grammar::parsed(premises[at[k]].expression, env)
                    == Ok::<ExprV, ErrV>(fact_constraints(premises, env)[k].expr)
        } by {
            if k < front.len() {
                assert(fact_constraints(init, env)[k] == fact_constraints(premises, env)[k]);
                assert(init[front[k]] == premises[front[k]]);
            }
        }
        assert forall|i: int|
            #![trigger premises[i]]
            0 <= i < premises.len() && grammar::parsed(premises[i].expression, env) is Ok
                implies at.contains(i) by {
            if i < n {
                assert(init[i] == premises[i]);
                assert(front.contains(i));
            }
        }
        at
    }
}

/// Every fact that cannot be expressed has a note with its statement and the reason, in
/// order, and no other fact has one.
pub proof fn lemma_fact_notes(premises: Seq<ExtractedV>, env: Sorts) -> (at: Seq<int>)
    ensures
        lists::ascending(at, premises.len() as int),
        fact_notes(premises, env).len() == at.len(),
        forall|k: int|
            #![trigger at[k]]
            0 <= k < at.len() ==> {
                &&& grammar::parsed(premises[at[k]].expression, env) is Err
                &&& fact_notes(premises, env)[k]
                    == "Skipped the fact \""@ + premises[at[k]].statement + "\": "@ + grammar::parsed(
                    premises[at[k]].expression,
                    env,
                )->Err_0.message
            },
        forall|i: int|
            #![trigger premises[i]]
            0 <= i < premises.len() && grammar::parsed(premises[i].expression, env) is Err
                ==> at.contains(i),
    decreases premises.len(),
{
    if premises.len() == 0 {
        Seq::empty()
    } else {
        let init = premises.drop_last();
        let n = init.len() as int;
        let front = lemma_fact_notes(init, env);
        lists::lemma_extended(front, n);
        let e = premises[n];
        let at = if grammar::parsed(e.expression, env) is Err {
            front.push(n)
        } else {
            front
        };
        assert forall|k: int| #![trigger at[k]] 0 <= k < at.len() implies {
            &&& grammar::parsed(premises[at[k]].expression, env) is Err
            &&& fact_notes(premises, env)[k]
                == "Skipped the fact \""@ + premises[at[k]].statement + "\": "@ + grammar::parsed(
                    premises[at[k]].expression,
                    env,
                )->Err_0.message
        } by {
            if k < front.len() {
                assert(fact_notes(init, env)[k] == fact_notes(premises, env)[k]);
                assert(init[front[k]] == premises[front[k]]);
            }
        }
        assert forall|i: int|
            #![trigger premises[i]]
            0 <= i < premises.len() && grammar::parsed(premises[i].expression, env) is Err
                implies at.contains(i) by {
            if i < n {
                assert(init[i] == premises[i]);
                assert(front.contains(i));
            }
        }
        at
    }
}

/// The facts that a report lists are the ones that constrain the check: there are as many,
/// and each listed fact has the statement and the expression of the constraint at its
/// place.
pub proof fn lemma_facts_listed(premises: Seq<ExtractedV>, env: Sorts)
    ensures
        facts(premises, env).len() == fact_constraints(premises, env).len(),
        forall|k: int|
            0 <= k < facts(premises, env).len() ==> {
                let f = #[trigger] facts(premises, env)[k];
                let c = fact_constraints(premises, env)[k];
                f.statement == c.statement && f.expression == c.expression
            },
    decreases premises.len(),
{
    if premises.len() > 0 {
        let init = premises.drop_last();
        lemma_facts_listed(init, env);
        assert forall|k: int| 0 <= k < facts(premises, env).len() implies {
            let f = #[trigger] facts(premises, env)[k];
            let c = fact_constraints(premises, env)[k];
            f.statement == c.statement && f.expression == c.expression
        } by {
            if k < facts(init, env).len() {
                assert(facts(premises, env)[k] == facts(init, env)[k]);
                assert(fact_constraints(premises, env)[k] == fact_constraints(init, env)[k]);
            }
        }
    }
}

} // verus!
