use std::time::Duration;

use ryu_reasoning::clock::TimeSpan;
use ryu_reasoning::logic::{Expr, VarType, Variable};
use ryu_reasoning::parser::parse;
use ryu_reasoning::solver::{decide_untimed, Budget, Env, Value};
use ryu_reasoning::verdict::{
    check_claim, check_claim_untimed, minimal_core, Constraint, ConstraintRef, Finding, Origin, Verdict,
};

fn vars() -> Vec<Variable> {
    vec![
        Variable {
            name: "is_manager".into(),
            ty: VarType::Bool,
            description: String::new(),
        },
        Variable {
            name: "tenure_months".into(),
            ty: VarType::Int,
            description: String::new(),
        },
        Variable {
            name: "vacation_days".into(),
            ty: VarType::Int,
            description: String::new(),
        },
    ]
}

fn constraint(id: &str, src: &str, origin: Origin, env: &Env) -> Constraint {
    Constraint {
        id: id.into(),
        statement: src.into(),
        expression: src.into(),
        expr: parse(src, env).unwrap_or_else(|e| panic!("parse {src}: {}", e.to_display())),
        origin,
    }
}

fn constraints(rules: &[&str], premises: &[&str], env: &Env) -> Vec<Constraint> {
    let mut cs: Vec<Constraint> = rules
        .iter()
        .enumerate()
        .map(|(i, s)| constraint(&format!("rule-{i}"), s, Origin::Rule, env))
        .collect();
    cs.extend(
        premises
            .iter()
            .enumerate()
            .map(|(i, s)| constraint(&format!("fact-{i}"), s, Origin::Premise, env)),
    );
    cs
}

fn check(rules: &[&str], premises: &[&str], claim: &str) -> Finding {
    let env = Env::from_variables(&vars());
    let cs = constraints(rules, premises, &env);
    let claim_expr =
        parse(claim, &env).unwrap_or_else(|e| panic!("parse {claim}: {}", e.to_display()));
    check_claim(&env, &cs, &claim_expr, claim, claim, &Budget::default())
}

#[test]
fn entailed_claim_is_valid() {
    let f = check(
        &["is_manager -> vacation_days <= 30"],
        &["is_manager"],
        "vacation_days <= 40",
    );
    assert_eq!(f.verdict, Verdict::Valid, "{}", f.detail);
}

#[test]
fn contradicted_claim_is_invalid_with_a_counterexample() {
    let f = check(
        &["is_manager -> vacation_days <= 30"],
        &["is_manager"],
        "vacation_days >= 40",
    );
    assert_eq!(f.verdict, Verdict::Invalid, "{}", f.detail);
    assert!(f.counterexample.is_some(), "invalid needs a witness");
    assert!(!f.responsible.is_empty(), "invalid must name the rule");
}

#[test]
fn undetermined_claim_is_satisfiable_not_valid() {
    let f = check(&["is_manager -> vacation_days <= 30"], &[], "is_manager");
    assert_eq!(f.verdict, Verdict::Satisfiable, "{}", f.detail);
}

/// The load-bearing guard. A policy whose rules conflict makes `P ∧ Q ∧ ¬C`
/// unsatisfiable for EVERY claim; without the step-1 check the checker would
/// stamp anything at all as proven.
#[test]
fn a_self_contradictory_policy_reports_impossible_not_valid() {
    let rules = ["tenure_months >= 12", "tenure_months <= 5"];
    for claim in [
        "vacation_days <= 30",
        "vacation_days >= 9000",
        "is_manager",
        "not is_manager",
    ] {
        let f = check(&rules, &[], claim);
        assert_eq!(
            f.verdict,
            Verdict::Impossible,
            "claim `{claim}` under a contradictory policy must be impossible, got {:?} — {}",
            f.verdict,
            f.detail
        );
        assert!(
            !f.responsible.is_empty(),
            "the conflicting rules must be named"
        );
    }
}

#[test]
fn impossible_is_also_reported_when_the_question_contradicts_the_policy() {
    let f = check(
        &["is_manager -> tenure_months >= 12"],
        &["is_manager", "tenure_months <= 3"],
        "vacation_days <= 30",
    );
    assert_eq!(f.verdict, Verdict::Impossible, "{}", f.detail);
}

#[test]
fn the_core_is_minimal_and_names_only_what_mattered() {
    let f = check(
        &[
            "is_manager -> vacation_days <= 30",
            "tenure_months >= 0",
            "vacation_days >= 0",
        ],
        &["is_manager"],
        "vacation_days >= 40",
    );
    assert_eq!(f.verdict, Verdict::Invalid);
    let ids: Vec<&str> = f.responsible.iter().map(|c| c.id.as_str()).collect();
    assert!(ids.contains(&"rule-0"), "the deciding rule must be listed");
    assert!(
        !ids.contains(&"rule-1"),
        "an irrelevant rule must not be listed: {ids:?}"
    );
}

#[test]
fn a_valid_claim_reports_the_premises_it_leaned_on() {
    let f = check(
        &["is_manager -> vacation_days <= 30"],
        &["is_manager"],
        "vacation_days <= 30",
    );
    assert_eq!(f.verdict, Verdict::Valid, "{}", f.detail);
    assert!(
        f.unstated_assumptions.iter().any(|c| c.id == "fact-0"),
        "the answer relies on `is_manager`, which the policy did not state"
    );
}

#[test]
fn an_invalid_claim_says_what_would_have_to_change() {
    let f = check(
        &["is_manager -> vacation_days <= 30"],
        &["is_manager", "vacation_days == 30"],
        "vacation_days >= 40",
    );
    assert_eq!(f.verdict, Verdict::Invalid);
    assert!(
        f.suggestions
            .iter()
            .any(|s| s.kind == "would_be_valid_if" || s.kind == "never_valid"),
        "an invalid finding must carry a repair: {:?}",
        f.suggestions
    );
}

/// A repair must talk about the finding, not about whatever else the solver
/// happened to pick. Two models differ on every variable the constraints leave
/// free, so an unfiltered diff told a manager "this would be right if you were not
/// a manager" — one nonsense clause discrediting a correct finding.
#[test]
fn a_repair_names_only_the_variables_the_finding_is_about() {
    let mut all = vars();
    all.push(Variable {
        name: "status".into(),
        ty: VarType::Enum {
            values: vec!["active".into(), "terminated".into()],
        },
        description: String::new(),
    });
    let env = Env::from_variables(&all);
    let cs = vec![
        constraint(
            "probation",
            "tenure_months < 12 -> vacation_days <= 15",
            Origin::Rule,
            &env,
        ),
        constraint(
            "terminated",
            "status == \"terminated\" -> vacation_days <= 0",
            Origin::Rule,
            &env,
        ),
        constraint("fact-1", "is_manager", Origin::Premise, &env),
        constraint("fact-2", "tenure_months == 8", Origin::Premise, &env),
    ];
    let claim = parse("vacation_days == 35", &env).unwrap();
    let f = check_claim(
        &env,
        &cs,
        &claim,
        "vacation_days == 35",
        "",
        &Budget::default(),
    );
    assert_eq!(f.verdict, Verdict::Invalid, "{}", f.detail);
    let repair = f
        .suggestions
        .iter()
        .find(|s| s.kind == "would_be_valid_if")
        .expect("an invalid finding carries a repair");
    assert!(
        repair.assignments.contains_key("tenure_months"),
        "the rule that decided it is about tenure: {:?}",
        repair.assignments
    );
    for noise in ["status", "is_manager"] {
        assert!(
            !repair.assignments.contains_key(noise),
            "'{noise}' had nothing to do with this finding, but the repair mentions it: {:?}",
            repair.assignments
        );
    }
}

/// A budget that cannot finish must degrade to `too_complex`, never to a verdict,
/// and must not hang.
#[test]
fn an_exhausted_budget_degrades_to_too_complex() {
    let env = Env::from_variables(&vars());
    let cs: Vec<Constraint> = (0..12)
        .map(|i| {
            let src = format!("tenure_months >= {i} or vacation_days <= {i}");
            constraint(&format!("rule-{i}"), &src, Origin::Rule, &env)
        })
        .collect();
    let claim = parse("vacation_days <= 5", &env).unwrap();
    let budget = Budget {
        max_branch_nodes: 3,
        time_limit: TimeSpan::from_millis(50),
        ..Budget::default()
    };
    let started = std::time::Instant::now();
    let f = check_claim(&env, &cs, &claim, "vacation_days <= 5", "", &budget);
    assert_eq!(f.verdict, Verdict::TooComplex, "{}", f.detail);
    assert!(
        started.elapsed() < Duration::from_secs(5),
        "the budget must stop the search, not merely be documented"
    );
}

#[test]
fn verdicts_have_names() {
    assert_eq!(Verdict::Valid.as_str(), "valid");
    assert_eq!(Verdict::Invalid.as_str(), "invalid");
    assert_eq!(Verdict::Satisfiable.as_str(), "satisfiable");
    assert_eq!(Verdict::Impossible.as_str(), "impossible");
    assert_eq!(Verdict::NoTranslations.as_str(), "no_translations");
    assert_eq!(Verdict::TranslationAmbiguous.as_str(), "translation_ambiguous");
    assert_eq!(Verdict::TooComplex.as_str(), "too_complex");
}

#[test]
fn findings_explain_themselves() {
    let valid = check(&["is_manager -> vacation_days <= 30"], &["is_manager"], "vacation_days <= 30");
    assert_eq!(valid.detail, "The policy proves this claim. 2 constraint(s) were needed.");
    assert_eq!(
        valid.suggestions[0].text,
        "The answer is only correct because of unstated assumptions: is_manager."
    );
    let trivial = check(&["vacation_days <= 30"], &[], "1 <= 2");
    assert_eq!(trivial.verdict, Verdict::Valid);
    assert_eq!(trivial.detail, "This claim is true no matter what the policy says.");
    assert!(trivial.responsible.is_empty());
    let invalid = check(&["vacation_days <= 30"], &[], "vacation_days >= 40");
    assert_eq!(
        invalid.detail,
        "The policy contradicts this claim: 1 constraint(s) rule it out."
    );
    assert_eq!(invalid.suggestions[0].kind, "never_valid");
    let impossible = check(&["vacation_days <= 1", "vacation_days >= 2"], &[], "is_manager");
    assert!(impossible.detail.starts_with("The policy contradicts itself"));
    let ruled_out = check(&["vacation_days <= 1"], &["vacation_days >= 2"], "is_manager");
    assert!(ruled_out.detail.starts_with("The question describes a situation"));
}

#[test]
fn an_open_claim_shows_both_worlds() {
    let f = check(&["is_manager -> vacation_days <= 30"], &[], "is_manager");
    let yes = f.supporting_example.expect("a world with the claim");
    let no = f.counterexample.expect("a world without it");
    assert_eq!(yes.values.get("is_manager"), Some(&Value::Bool(true)));
    assert_eq!(no.values.get("is_manager"), Some(&Value::Bool(false)));
    assert_eq!(f.suggestions[0].kind, "undetermined_variable");
    assert_eq!(f.suggestions[0].text, "Pin down is_manager to settle this claim.");
}

#[test]
fn the_same_question_gets_the_same_finding() {
    let env = Env::from_variables(&vars());
    let cs = constraints(&["is_manager -> vacation_days <= 30"], &["is_manager"], &env);
    let claim = parse("vacation_days >= 40", &env).unwrap();
    let one = check_claim_untimed(&env, &cs, &claim, "c", "s", &Budget::default());
    let two = check_claim_untimed(&env, &cs, &claim, "c", "s", &Budget::default());
    assert_eq!(one.verdict, two.verdict);
    assert_eq!(one.detail, two.detail);
    assert_eq!(one.responsible, two.responsible);
    assert_eq!(one.counterexample, two.counterexample);
    assert_eq!(one.suggestions, two.suggestions);
    assert_eq!(one.claim, "c");
    assert_eq!(one.claim_statement, "s");
}

#[test]
fn every_member_of_a_core_is_needed() {
    let f = check(
        &["is_manager -> tenure_months >= 12", "tenure_months >= 12 -> vacation_days >= 20"],
        &["is_manager"],
        "vacation_days >= 20",
    );
    assert_eq!(f.verdict, Verdict::Valid);
    assert_eq!(f.responsible.len(), 3);
    let weaker = check(&["is_manager -> tenure_months >= 12"], &["is_manager"], "vacation_days >= 20");
    assert_ne!(weaker.verdict, Verdict::Valid);
}

#[test]
fn a_constraint_is_named_without_its_formula() {
    let env = Env::from_variables(&vars());
    let c = constraint("r", "is_manager", Origin::Premise, &env);
    let r = ConstraintRef::of(&c);
    assert_eq!(r.id, "r");
    assert_eq!(r.statement, "is_manager");
    assert_eq!(r.expression, "is_manager");
    assert_eq!(r.origin, Origin::Premise);
}

#[test]
fn a_sentence_that_was_not_formalized_says_so() {
    let f = Finding::untranslatable("c".into(), "s".into(), "why".into());
    assert_eq!(f.verdict, Verdict::NoTranslations);
    assert_eq!(f.detail, "why");
    assert!(f.counterexample.is_none() && f.suggestions.is_empty());
}

#[test]
fn the_counterexample_satisfies_everything_but_the_claim() {
    let f = check(
        &["is_manager -> vacation_days <= 30", "vacation_days >= 0"],
        &["is_manager"],
        "vacation_days >= 40",
    );
    let world = f.counterexample.expect("a witness");
    assert_eq!(world.values.get("is_manager"), Some(&Value::Bool(true)));
    let days: i64 = match world.values.get("vacation_days") {
        Some(Value::Number(n)) => n.parse().expect("a whole number"),
        other => panic!("{other:?}"),
    };
    assert!((0..=30).contains(&days));
}

#[test]
fn the_blamed_constraints_suffice() {
    let rules = ["is_manager -> vacation_days <= 30", "tenure_months >= 0", "vacation_days >= 0"];
    let f = check(&rules, &["is_manager"], "vacation_days >= 40");
    let kept: Vec<&str> = f
        .responsible
        .iter()
        .filter(|c| c.origin == Origin::Rule)
        .map(|c| c.expression.as_str())
        .collect();
    let facts: Vec<&str> = f
        .responsible
        .iter()
        .filter(|c| c.origin == Origin::Premise)
        .map(|c| c.expression.as_str())
        .collect();
    assert_eq!(check(&kept, &facts, "vacation_days >= 40").verdict, Verdict::Invalid);
    assert_eq!(kept, vec!["is_manager -> vacation_days <= 30"]);
}

#[test]
fn a_core_stands_up_to_being_asked_again() {
    let env = Env::from_variables(&vars());
    let rules = [
        "tenure_months >= 0",
        "is_manager -> vacation_days <= 30",
        "vacation_days >= 0",
        "is_manager",
        "tenure_months >= 12 -> vacation_days >= 20",
    ];
    let cs = constraints(&rules, &[], &env);
    let claim = parse("vacation_days >= 40", &env).ok().expect("a formula");
    let budget = Budget::default();
    let core = minimal_core(&env, &cs, &vec![claim.clone()], &budget, false);
    assert_eq!(core, vec![1, 3]);
    let ask = |without: Option<usize>| {
        let mut question: Vec<_> = core
            .iter()
            .filter(|i| Some(**i) != without)
            .map(|i| cs[*i].expr.clone())
            .collect();
        question.push(claim.clone());
        decide_untimed(&env, &question, &budget)
    };
    assert!(ask(None).is_unsat());
    assert!(core.iter().all(|i| ask(Some(*i)).is_sat()));
}

#[test]
fn an_enum_without_values_that_nothing_tests_changes_nothing() {
    let mut declared = vars();
    declared.push(Variable {
        name: "status".into(),
        ty: VarType::Enum { values: vec![] },
        description: String::new(),
    });
    let env = Env::from_variables(&declared);
    let cs = constraints(&["is_manager -> vacation_days <= 30"], &["is_manager"], &env);
    let verdict = |claim: &str| {
        let e = parse(claim, &env).ok().expect("a formula");
        check_claim(&env, &cs, &e, claim, claim, &Budget::default()).verdict
    };
    assert_eq!(verdict("vacation_days <= 40"), Verdict::Valid);
    assert_eq!(verdict("vacation_days >= 40"), Verdict::Invalid);
    assert_eq!(verdict("vacation_days >= 10"), Verdict::Satisfiable);
}

#[test]
fn a_core_stands_up_whatever_the_sorts() {
    // `is_manager` is tested as a text, and `tenure_months` as a truth value.
    let env = Env::from_variables(&vars());
    let boss = Expr::EnumEq("is_manager".into(), "boss".into());
    let odd = Expr::Bool("tenure_months".into());
    let mut cs = constraints(&["is_manager", "tenure_months >= 1", "is_manager"], &[], &env);
    cs[0].expr = boss.clone();
    cs[2].expr = odd.clone().not();
    let extra = vec![boss.implies(odd)];
    let budget = Budget::default();
    let core = minimal_core(&env, &cs, &extra, &budget, false);
    assert_eq!(core, vec![0, 2]);
    for i in &core {
        let question = vec![cs[2 - *i].expr.clone(), extra[0].clone()];
        assert!(decide_untimed(&env, &question, &budget).is_sat());
    }
}
