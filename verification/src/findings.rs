//! What a finding says: verdicts are complete, and suggestions name exactly the values that
//! would settle or mend a claim.

use vstd::prelude::*;

use crate::decision;
use crate::decision::{Limits, OutcomeV, ValueV};
use crate::lists;
use crate::logic;
use crate::logic::ExprV;
use crate::names;
use crate::policy;
use crate::semantics;
use crate::semantics::Sorts;
use crate::solver;
use crate::soundness;
use crate::text;
use crate::verdict;
use crate::verdict::{ConstraintV, Entries, FindingV, Origin, Verdict};

verus! {

/// Were the three questions of a claim answered so, as far as they were asked?
pub open spec fn answered(
    exact: bool,
    env: Sorts,
    lim: Limits,
    cs: Seq<ConstraintV>,
    claim: ExprV,
    base: OutcomeV,
    negated: OutcomeV,
    claimed: OutcomeV,
) -> bool {
    &&& verdict::asked(exact, env, lim, verdict::formulas(cs), base)
    &&& base is Sat ==> verdict::asked(
        exact,
        env,
        lim,
        verdict::formulas(cs).push(logic::negation(claim)),
        negated,
    )
    &&& base is Sat && !(negated is Unknown) ==> verdict::asked(
        exact,
        env,
        lim,
        verdict::formulas(cs).push(claim),
        claimed,
    )
}

proof fn lemma_answers(
    exact: bool,
    env: Sorts,
    lim: Limits,
    cs: Seq<ConstraintV>,
    claim: ExprV,
    f: FindingV,
) -> (r: (OutcomeV, OutcomeV, OutcomeV))
    requires
        verdict::found(exact, env, lim, cs, claim, f),
    ensures
        verdict::finding_by(exact, env, lim, cs, claim, r.0, r.1, r.2, f),
        answered(exact, env, lim, cs, claim, r.0, r.1, r.2),
        f.verdict == verdict::verdict_of(r.0, r.1, r.2),
{
    let (base, negated, claimed) = choose|
        base: OutcomeV,
        negated: OutcomeV,
        claimed: OutcomeV,
    | #[trigger]
        verdict::finding_by(exact, env, lim, cs, claim, base, negated, claimed, f)
            && verdict::asked(exact, env, lim, verdict::formulas(cs), base) && (base is Sat
            ==> verdict::asked(
            exact,
            env,
            lim,
            verdict::formulas(cs).push(logic::negation(claim)),
            negated,
        )) && (base is Sat && !(negated is Unknown) ==> verdict::asked(
            exact,
            env,
            lim,
            verdict::formulas(cs).push(claim),
            claimed,
        ));
    (base, negated, claimed)
}

/// Verdicts are complete. Where a claim was not left as too complex, its verdict says just
/// how it stands: the constraints are contradictory, or they have worlds and the claim is
/// true in all of these, or false in all of them, or true in some and false in others.
pub proof fn lemma_verdict_complete(
    exact: bool,
    env: Sorts,
    lim: Limits,
    cs: Seq<ConstraintV>,
    claim: ExprV,
    f: FindingV,
)
    requires
        verdict::found(exact, env, lim, cs, claim, f),
        soundness::well_sorted(env, verdict::formulas(cs).push(claim)),
        soundness::inhabited(env, verdict::formulas(cs).push(claim)),
        f.verdict != Verdict::TooComplex,
    ensures
        ({
            let all = verdict::formulas(cs);
            let possible = semantics::satisfiable(env, all);
            let always = semantics::entails(env, all, claim);
            let never = semantics::entails(env, all, logic::negation(claim));
            &&& f.verdict == Verdict::Impossible <==> !possible
            &&& f.verdict == Verdict::Valid <==> possible && always
            &&& f.verdict == Verdict::Invalid <==> possible && never
            &&& f.verdict == Verdict::Satisfiable <==> possible && !always && !never
        }),
{
    let (base, negated, claimed) = lemma_answers(exact, env, lim, cs, claim, f);
    let all = verdict::formulas(cs);
    soundness::lemma_claim_parts(env, all, claim);
    semantics::lemma_refutation(env, all, claim);
    semantics::lemma_contradiction(env, all, claim);
    verdict::lemma_verdict_means(exact, env, lim, cs, claim, f);
    verdict::lemma_verdict_cautious(exact, env, lim, cs, claim, f);
    if let OutcomeV::Sat(m) = base {
        let w = soundness::world_of(env, m);
        assert(semantics::satisfies(env, all, w));
        soundness::lemma_world_extends(env, all, claim, m);
        semantics::lemma_negation(claim, w);
        semantics::lemma_admissible_negation(env, all, claim, w);
    }
}

/// A claim is left as too complex only where a question about it was left open: whether the
/// constraints have a world, whether one has the claim false, or whether one has it true.
/// The reason that is given is that of the first such question.
pub proof fn lemma_too_complex(
    env: Sorts,
    lim: Limits,
    cs: Seq<ConstraintV>,
    claim: ExprV,
    f: FindingV,
)
    requires
        verdict::found(true, env, lim, cs, claim, f),
    ensures
        ({
            let all = verdict::formulas(cs);
            let base = decision::decision(env, all, lim);
            let negated = decision::decision(env, all.push(logic::negation(claim)), lim);
            let claimed = decision::decision(env, all.push(claim), lim);
            &&& f.verdict == Verdict::TooComplex <==> base is Unknown || (base is Sat && (negated
                is Unknown || claimed is Unknown))
            &&& base is Unknown ==> f.detail == verdict::undecided(base->Unknown_0)
            &&& base is Sat && negated is Unknown ==> f.detail == verdict::undecided(
                negated->Unknown_0,
            )
            &&& base is Sat && !(negated is Unknown) && claimed is Unknown ==> f.detail
                == verdict::undecided(claimed->Unknown_0)
        }),
{
    let (base, negated, claimed) = lemma_answers(true, env, lim, cs, claim, f);
}

/// What a proved claim leans on beyond the policy: of the constraints that it needs, listed
/// as responsible, exactly the premises, in order, are its unstated assumptions.
pub proof fn lemma_unstated_assumptions(
    exact: bool,
    env: Sorts,
    lim: Limits,
    cs: Seq<ConstraintV>,
    claim: ExprV,
    f: FindingV,
) -> (at: Seq<int>)
    requires
        verdict::found(exact, env, lim, cs, claim, f),
    ensures
        f.verdict != Verdict::Valid ==> f.unstated_assumptions.len() == 0,
        f.verdict == Verdict::Valid ==> {
            &&& lists::ascending(at, f.responsible.len() as int)
            &&& f.unstated_assumptions.len() == at.len()
            &&& forall|k: int|
                #![trigger at[k]]
                0 <= k < at.len() ==> {
                    &&& f.responsible[at[k]].origin == Origin::Premise
                    &&& f.unstated_assumptions[k] == f.responsible[at[k]]
                }
            &&& forall|i: int|
                #![trigger f.responsible[i]]
                0 <= i < f.responsible.len() && f.responsible[i].origin == Origin::Premise
                    ==> at.contains(i)
        },
{
    let (base, negated, claimed) = lemma_answers(exact, env, lim, cs, claim, f);
    if f.verdict == Verdict::Valid {
        let extra = seq![logic::negation(claim)];
        let core = choose|core: Seq<ConstraintV>| #[trigger]
            verdict::reduces_to(exact, env, lim, cs, 0, extra, core) && f == (FindingV {
                responsible: verdict::refs_of(core),
                unstated_assumptions: verdict::refs_of(verdict::premises(core)),
                supporting_example: f.supporting_example,
                suggestions: verdict::assumption_suggestions(
                    verdict::refs_of(verdict::premises(core)),
                ),
                ..verdict::plain_finding(
                    Verdict::Valid,
                    f.claim,
                    f.claim_statement,
                    verdict::valid_detail(core.len()),
                )
            }) && match claimed {
                OutcomeV::Sat(m) => f.supporting_example matches Some(a) && verdict::lists(a, m),
                _ => f.supporting_example is None,
            };
        let at = verdict::lemma_premises(core);
        assert(f.responsible == verdict::refs_of(core));
        assert(f.unstated_assumptions == verdict::refs_of(verdict::premises(core)));
        assert forall|k: int| #![trigger at[k]] 0 <= k < at.len() implies {
            &&& f.responsible[at[k]].origin == Origin::Premise
            &&& f.unstated_assumptions[k] == f.responsible[at[k]]
        } by {
            assert(verdict::premises(core)[k] == core[at[k]]);
        }
        assert forall|i: int|
            #![trigger f.responsible[i]]
            0 <= i < f.responsible.len() && f.responsible[i].origin
                == Origin::Premise implies at.contains(i) by {
            assert(core[i].origin == Origin::Premise);
        }
        at
    } else {
        Seq::empty()
    }
}

/// Of the values of one list, exactly those are kept that another list does not share and
/// whose names are asked for.
pub proof fn lemma_told_apart(
    a: Entries,
    b: Entries,
    about: Seq<Seq<char>>,
    e: (Seq<char>, ValueV),
)
    ensures
        verdict::restricted(verdict::differing(a, b), about).contains(e) <==> a.contains(e)
            && names::lookup(b, e.0) != Some(e.1) && about.contains(e.0),
{
    let d = verdict::differing(a, b);
    let r = verdict::restricted(d, about);
    let p = verdict::lemma_differing(a, b);
    let q = verdict::lemma_restricted_to(d, about);
    if r.contains(e) {
        let k = r.index_of(e);
        assert(r[k] == d[q[k]]);
        assert(d[q[k]] == a[p[q[k]]]);
        assert(a[p[q[k]]] == e);
    }
    if a.contains(e) && names::lookup(b, e.0) != Some(e.1) && about.contains(e.0) {
        let i = a.index_of(e);
        assert(a[i] == e);
        assert(p.contains(i));
        let j = p.index_of(i);
        assert(p[j] == i);
        assert(d[j] == e);
        assert(q.contains(j));
        let k = q.index_of(j);
        assert(q[k] == j);
        assert(r[k] == e);
    }
}

/// What an open claim turns on: it is suggested to pin down exactly the variables of the
/// claim on which its supporting example and its counterexample differ, and nothing where
/// there are none.
pub proof fn lemma_open_claim(
    exact: bool,
    env: Sorts,
    lim: Limits,
    cs: Seq<ConstraintV>,
    claim: ExprV,
    f: FindingV,
    e: (Seq<char>, ValueV),
)
    requires
        verdict::found(exact, env, lim, cs, claim, f),
        f.verdict == Verdict::Satisfiable,
    ensures
        f.supporting_example is Some && f.counterexample is Some,
        f.suggestions.len() <= 1,
        (f.suggestions.len() == 1 && f.suggestions[0].assignments.contains(e)) <==> {
            &&& f.supporting_example->0.contains(e)
            &&& names::lookup(f.counterexample->0, e.0) != Some(e.1)
            &&& logic::vars_of(claim).contains(e.0)
        },
{
    let (base, negated, claimed) = lemma_answers(exact, env, lim, cs, claim, f);
    let (yes, no) = (f.supporting_example->0, f.counterexample->0);
    let about = verdict::relevant(claim, Seq::empty());
    lemma_told_apart(yes, no, about, e);
    assert(verdict::formulas(Seq::<ConstraintV>::empty()) =~= Seq::empty());
    assert(logic::vars_of_all(Seq::<ExprV>::empty()) =~= Seq::empty());
    assert(about =~= logic::vars_of(claim));
    let r = verdict::restricted(verdict::differing(yes, no), about);
    if r.len() == 0 {
        assert(!r.contains(e));
    }
}

/// How a contradicted claim could be right: where a world of the policy without the premises
/// has it true, it is suggested to change exactly the variables that matter on which that
/// world differs from the counterexample; where no such world exists, it is said that no
/// facts would do; and where that was left open nothing is suggested.
pub proof fn lemma_contradicted_claim(
    exact: bool,
    env: Sorts,
    lim: Limits,
    cs: Seq<ConstraintV>,
    claim: ExprV,
    f: FindingV,
    e: (Seq<char>, ValueV),
)
    requires
        verdict::found(exact, env, lim, cs, claim, f),
        f.verdict == Verdict::Invalid,
    ensures
        f.counterexample is Some,
        exists|o: OutcomeV, core: Seq<ConstraintV>|
            #![trigger verdict::asked(
                exact,
                env,
                lim,
                verdict::rule_formulas(cs).push(claim),
                o,
            ), verdict::refs_of(core)]
            {
                &&& verdict::asked(exact, env, lim, verdict::rule_formulas(cs).push(claim), o)
                &&& f.responsible == verdict::refs_of(core)
                &&& match o {
                    OutcomeV::Sat(m) => exists|a: Entries| #[trigger]
                        verdict::lists(a, m) && f.suggestions.len() <= 1 && ((f.suggestions.len()
                            == 1 && f.suggestions[0].assignments.contains(e)) <==> {
                            &&& a.contains(e)
                            &&& names::lookup(f.counterexample->0, e.0) != Some(e.1)
                            &&& logic::vars_of(claim).contains(e.0) || logic::vars_of_all(
                                verdict::formulas(core),
                            ).contains(e.0)
                        }),
                    OutcomeV::Unsat => f.suggestions.len() == 1
                        && f.suggestions[0].assignments.len() == 0,
                    OutcomeV::Unknown(_) => f.suggestions.len() == 0,
                }
            },
{
    let (base, negated, claimed) = lemma_answers(exact, env, lim, cs, claim, f);
    let core = choose|core: Seq<ConstraintV>| #[trigger]
        verdict::reduces_to(exact, env, lim, cs, 0, seq![claim], core) && f == (FindingV {
            responsible: verdict::refs_of(core),
            counterexample: f.counterexample,
            suggestions: f.suggestions,
            ..verdict::plain_finding(
                Verdict::Invalid,
                f.claim,
                f.claim_statement,
                verdict::invalid_detail(core.len()),
            )
        }) && (f.counterexample matches Some(a) && verdict::lists(a, base->Sat_0)
            && verdict::repairs(
            exact,
            env,
            lim,
            cs,
            claim,
            a,
            verdict::relevant(claim, core),
            f.suggestions,
        ));
    let no = f.counterexample->0;
    let about = verdict::relevant(claim, core);
    let probe = verdict::rule_formulas(cs).push(claim);
    let o = choose|o: OutcomeV| #[trigger]
        verdict::asked(exact, env, lim, probe, o) && match o {
            OutcomeV::Sat(m) => exists|a: Entries| #[trigger]
                verdict::lists(a, m) && f.suggestions == verdict::repair_of(
                    verdict::restricted(verdict::differing(a, no), about),
                ),
            OutcomeV::Unsat => f.suggestions == verdict::never_valid(),
            OutcomeV::Unknown(_) => f.suggestions.len() == 0,
        };
    assert(f.responsible == verdict::refs_of(core));
    if let OutcomeV::Sat(m) = o {
        let a = choose|a: Entries| #[trigger]
            verdict::lists(a, m) && f.suggestions == verdict::repair_of(
                verdict::restricted(verdict::differing(a, no), about),
            );
        lemma_told_apart(a, no, about, e);
        let (p, q) = (logic::vars_of(claim), logic::vars_of_all(verdict::formulas(core)));
        assert(about.contains(e.0) <==> p.contains(e.0) || q.contains(e.0)) by {
            if p.contains(e.0) {
                assert((p + q)[p.index_of(e.0)] == e.0);
            }
            if q.contains(e.0) {
                assert((p + q)[p.len() + q.index_of(e.0)] == e.0);
            }
        }
        let r = verdict::restricted(verdict::differing(a, no), about);
        if r.len() == 0 {
            assert(!r.contains(e));
        }
        assert(verdict::lists(a, m));
    }
}

// ── What is said ────────────────────────────────────────────────────────────────

/// Does one text stand somewhere in the other?
pub open spec fn says(whole: Seq<char>, part: Seq<char>) -> bool {
    exists|i: int|
        0 <= i && i + part.len() <= whole.len() && #[trigger] whole.subrange(i, i + part.len())
            == part
}

/// A text says what a part of it says.
pub proof fn lemma_says(a: Seq<char>, b: Seq<char>, c: Seq<char>, part: Seq<char>)
    requires
        says(b, part),
    ensures
        says(a + b + c, part),
{
    let i = choose|i: int|
        0 <= i && i + part.len() <= b.len() && #[trigger] b.subrange(i, i + part.len()) == part;
    let j = a.len() + i;
    assert((a + b + c).subrange(j, j + part.len()) =~= part) by {
        assert(b.subrange(i, i + part.len()) == part);
        assert forall|k: int| 0 <= k < part.len() implies (a + b + c)[j + k] == part[k] by {
            assert(b.subrange(i, i + part.len())[k] == b[i + k]);
        }
    }
}

/// A text says its parts.
pub proof fn lemma_says_itself(a: Seq<char>, b: Seq<char>, c: Seq<char>)
    ensures
        says(a + b + c, b),
{
    let z: int = 0;
    assert(b.subrange(z, z + b.len()) =~= b);
    lemma_says(a, b, c, b);
}

proof fn lemma_says_joined(
    a: Seq<char>,
    parts: Seq<Seq<char>>,
    sep: Seq<char>,
    c: Seq<char>,
    k: int,
)
    requires
        0 <= k < parts.len(),
    ensures
        says(a + text::joined(parts, sep) + c, parts[k]),
{
    let i = text::lemma_joined_holds(parts, sep, k);
    let b = text::joined(parts, sep);
    assert(b.subrange(i, i + parts[k].len()) == parts[k]);
    lemma_says(a, b, c, parts[k]);
}

/// What is said of a proved or a contradicted claim tells how many constraints it took: as
/// many as are listed as responsible. Of a proved claim that took none it is said that it is
/// true whatever the policy says.
pub proof fn lemma_count_said(
    exact: bool,
    env: Sorts,
    lim: Limits,
    cs: Seq<ConstraintV>,
    claim: ExprV,
    f: FindingV,
)
    requires
        verdict::found(exact, env, lim, cs, claim, f),
    ensures
        f.verdict == Verdict::Invalid ==> says(f.detail, text::digits(f.responsible.len())),
        f.verdict == Verdict::Valid && f.responsible.len() > 0 ==> says(
            f.detail,
            text::digits(f.responsible.len()),
        ),
        f.verdict == Verdict::Satisfiable || f.verdict == Verdict::TooComplex
            ==> f.responsible.len() == 0,
{
    let (base, negated, claimed) = lemma_answers(exact, env, lim, cs, claim, f);
    let n = f.responsible.len();
    lemma_says_itself(
        "The policy proves this claim. "@,
        text::digits(n),
        " constraint(s) were needed."@,
    );
    lemma_says_itself(
        "The policy contradicts this claim: "@,
        text::digits(n),
        " constraint(s) rule it out."@,
    );
}

/// The policy itself is blamed for a contradiction exactly where no premise is part of it.
pub proof fn lemma_contradiction_said(
    exact: bool,
    env: Sorts,
    lim: Limits,
    cs: Seq<ConstraintV>,
    claim: ExprV,
    f: FindingV,
    core: Seq<ConstraintV>,
    mixed: Seq<ConstraintV>,
)
    requires
        verdict::found(exact, env, lim, cs, claim, f),
        f.verdict == Verdict::Impossible,
        core.len() == 0,
        mixed.len() == 1 && mixed[0].origin == Origin::Premise,
    ensures
        (forall|i: int|
            0 <= i < f.responsible.len() ==> (#[trigger] f.responsible[i]).origin == Origin::Rule)
            ==> f.detail == verdict::impossible_detail(core),
        (exists|i: int|
            0 <= i < f.responsible.len() && (#[trigger] f.responsible[i]).origin
                == Origin::Premise) ==> f.detail == verdict::impossible_detail(mixed),
        verdict::impossible_detail(core) != verdict::impossible_detail(mixed),
        says(verdict::impossible_detail(core), "The policy contradicts itself"@),
{
    let (base, negated, claimed) = lemma_answers(exact, env, lim, cs, claim, f);
    let found = choose|found: Seq<ConstraintV>| #[trigger]
        verdict::reduces_to(exact, env, lim, cs, 0, Seq::empty(), found) && f == (FindingV {
            responsible: verdict::refs_of(found),
            ..verdict::plain_finding(
                Verdict::Impossible,
                f.claim,
                f.claim_statement,
                verdict::impossible_detail(found),
            )
        });
    assert forall|i: int| 0 <= i < found.len() implies (#[trigger] f.responsible[i]).origin
        == found[i].origin by {}
    if forall|i: int|
        0 <= i < f.responsible.len() ==> (#[trigger] f.responsible[i]).origin == Origin::Rule {
        assert forall|i: int| 0 <= i < found.len() implies (#[trigger] found[i]).origin
            == Origin::Rule by {
            assert(f.responsible[i].origin == found[i].origin);
        }
    }
    if exists|i: int|
        0 <= i < f.responsible.len() && (#[trigger] f.responsible[i]).origin == Origin::Premise {
        let i = choose|i: int|
            0 <= i < f.responsible.len() && (#[trigger] f.responsible[i]).origin
                == Origin::Premise;
        assert(found[i].origin == Origin::Premise);
    }
    assert(mixed[0].origin != Origin::Rule);
    let own = verdict::impossible_detail(core);
    let other = verdict::impossible_detail(mixed);
    reveal_strlit(
        "The policy contradicts itself: the rules below cannot all hold at once, so nothing can be proved or disproved against it.",
    );
    reveal_strlit(
        "The question describes a situation the policy rules out, so no claim about it can be checked.",
    );
    reveal_strlit("The policy contradicts itself");
    assert(own[4] == 'p' && other[4] == 'q');
    let z: int = 0;
    assert(own.subrange(z, z + "The policy contradicts itself"@.len())
        =~= "The policy contradicts itself"@);
}

/// Suggestions say what they are about: one to pin values down names each of the variables,
/// one that says what would make a claim right gives each with its value, and one on unstated
/// assumptions states each of them.
pub proof fn lemma_suggestions_say(
    values: Entries,
    unstated: Seq<verdict::RefV>,
    k: int,
)
    ensures
        0 <= k < values.len() ==> verdict::open_suggestions(values).len() == 1 && says(
            verdict::open_suggestions(values)[0].text,
            values[k].0,
        ) && verdict::open_suggestions(values)[0].assignments == values,
        0 <= k < values.len() ==> verdict::repair_of(values).len() == 1 && says(
            verdict::repair_of(values)[0].text,
            values[k].0 + " = "@ + solver::rendered(values[k].1),
        ) && verdict::repair_of(values)[0].assignments == values,
        0 <= k < unstated.len() ==> verdict::assumption_suggestions(unstated).len() == 1 && says(
            verdict::assumption_suggestions(unstated)[0].text,
            unstated[k].statement,
        ),
{
    if 0 <= k < values.len() {
        lemma_says_joined(
            "Pin down "@,
            verdict::names_of(values),
            ", "@,
            " to settle this claim."@,
            k,
        );
        lemma_says_joined(
            "The answer would be correct only if "@,
            verdict::equations(values),
            " and "@,
            "."@,
            k,
        );
    }
    if 0 <= k < unstated.len() {
        lemma_says_joined(
            "The answer is only correct because of unstated assumptions: "@,
            verdict::statements(unstated),
            "; "@,
            "."@,
            k,
        );
    }
}

/// Verdicts have different names.
pub proof fn lemma_verdict_names(a: Verdict, b: Verdict)
    requires
        verdict::verdict_name(a) == verdict::verdict_name(b),
    ensures
        a == b,
{
    reveal_strlit("valid");
    reveal_strlit("invalid");
    reveal_strlit("satisfiable");
    reveal_strlit("impossible");
    reveal_strlit("no_translations");
    reveal_strlit("translation_ambiguous");
    reveal_strlit("too_complex");
    assert("valid"@.len() == 5 && "invalid"@.len() == 7 && "satisfiable"@[0] == 's');
    assert("impossible"@.len() == 10 && "no_translations"@.len() == 15);
    assert("translation_ambiguous"@.len() == 21 && "too_complex"@[0] == 't');
    assert("satisfiable"@.len() == 11 && "too_complex"@.len() == 11);
}

/// Constraints are named one by one, each by its id, its prose, its formula and its origin,
/// and stand for their formulas.
pub proof fn lemma_named_constraints(cs: Seq<ConstraintV>, i: int)
    ensures
        verdict::refs_of(cs).len() == cs.len(),
        verdict::formulas(cs).len() == cs.len(),
        policy::ids(cs).len() == cs.len(),
        0 <= i < cs.len() ==> {
            &&& verdict::refs_of(cs)[i].id == cs[i].id
            &&& verdict::refs_of(cs)[i].statement == cs[i].statement
            &&& verdict::refs_of(cs)[i].expression == cs[i].expression
            &&& verdict::refs_of(cs)[i].origin == cs[i].origin
            &&& verdict::formulas(cs)[i] == cs[i].expr
            &&& policy::ids(cs)[i] == cs[i].id
        },
{
}

} // verus!
