use ryu_reasoning::api::{
    aggregate, already_exists, assign_id, assignments_of, capability_descriptor, decide_claim,
    draft_errors, evaluate, evaluate_untimed, judge, slug, slug_or, tally,
};
use ryu_reasoning::clock::TimeSpan;
use ryu_reasoning::json::{write_json, Json};
use ryu_reasoning::logic::{VarType, Variable};
use ryu_reasoning::policy::{CompiledPolicy, Policy, Rule, TestCase};
use ryu_reasoning::solver::Budget;
use ryu_reasoning::store::file_name;
use ryu_reasoning::translate::{Draft, Extracted, Extraction};
use ryu_reasoning::verdict::{Finding, Verdict};

fn policy() -> Policy {
    Policy {
        id: "hr".into(),
        name: "HR".into(),
        description: String::new(),
        version: 3,
        variables: vec![
            Variable {
                name: "is_manager".into(),
                ty: VarType::Bool,
                description: String::new(),
            },
            Variable {
                name: "vacation_days".into(),
                ty: VarType::Int,
                description: String::new(),
            },
        ],
        rules: vec![Rule {
            id: "cap".into(),
            statement: "Managers get at most 30 vacation days.".into(),
            expression: "is_manager -> vacation_days <= 30".into(),
            enabled: true,
        }],
        tests: Vec::new(),
        source_document: None,
        created_at: String::new(),
        updated_at: String::new(),
    }
}

fn extraction(premises: &[&str], claims: &[(&str, Vec<&str>)]) -> Extraction {
    Extraction {
        premises: premises
            .iter()
            .map(|e| Extracted {
                statement: (*e).into(),
                expression: (*e).into(),
                alternatives: Vec::new(),
            })
            .collect(),
        claims: claims
            .iter()
            .map(|(e, alts)| Extracted {
                statement: (*e).into(),
                expression: (*e).into(),
                alternatives: alts.iter().map(|a| (*a).into()).collect(),
            })
            .collect(),
        notes: Vec::new(),
    }
}

fn findings(verdicts: &[Verdict]) -> Vec<Finding> {
    verdicts
        .iter()
        .map(|v| {
            let mut f = Finding::untranslatable("c".into(), "s".into(), "d".into());
            f.verdict = *v;
            f
        })
        .collect()
}

#[test]
fn a_contradicted_answer_is_invalid_and_carries_the_policy_version() {
    let report = evaluate(
        &policy(),
        &extraction(&["is_manager"], &[("vacation_days >= 45", vec![])]),
        &Budget::default(),
    );
    assert_eq!(report.result, Verdict::Invalid);
    assert_eq!(report.policy_version, 3);
    assert_eq!(report.premises.len(), 1);
}

#[test]
fn an_unparseable_claim_becomes_no_translations_not_a_pass() {
    let report = evaluate(
        &policy(),
        &extraction(&[], &[("bonus_amount >= 10", vec![])]),
        &Budget::default(),
    );
    assert_eq!(report.result, Verdict::NoTranslations);
    assert!(report.findings[0].detail.contains("bonus_amount"));
}

#[test]
fn disagreeing_readings_are_reported_as_ambiguous() {
    let report = evaluate(
        &policy(),
        &extraction(
            &["is_manager"],
            &[("vacation_days <= 30", vec!["vacation_days >= 45"])],
        ),
        &Budget::default(),
    );
    assert_eq!(report.result, Verdict::TranslationAmbiguous);
    assert!(report.findings[0]
        .detail
        .contains("more than one reasonable reading"));
}

#[test]
fn agreeing_readings_do_not_trigger_ambiguity() {
    let report = evaluate(
        &policy(),
        &extraction(
            &["is_manager"],
            &[("vacation_days >= 45", vec!["vacation_days >= 50"])],
        ),
        &Budget::default(),
    );
    assert_eq!(report.result, Verdict::Invalid);
}

#[test]
fn a_broken_rule_is_reported_as_a_note_rather_than_silently_ignored() {
    let mut p = policy();
    p.rules.push(Rule {
        id: "typo".into(),
        statement: "…".into(),
        expression: "vacation_dayz <= 5".into(),
        enabled: true,
    });
    let report = evaluate(
        &p,
        &extraction(&[], &[("vacation_days <= 100", vec![])]),
        &Budget::default(),
    );
    assert!(
        report.notes.iter().any(|n| n.contains("typo")),
        "notes: {:?}",
        report.notes
    );
}

#[test]
fn aggregation_puts_a_single_contradiction_above_any_number_of_proofs() {
    let report = evaluate(
        &policy(),
        &extraction(
            &["is_manager"],
            &[
                ("vacation_days <= 100", vec![]),
                ("vacation_days >= 45", vec![]),
            ],
        ),
        &Budget::default(),
    );
    assert_eq!(report.result, Verdict::Invalid);
}

#[test]
fn no_claims_means_no_translations() {
    let report = evaluate(&policy(), &extraction(&[], &[]), &Budget::default());
    assert_eq!(report.result, Verdict::NoTranslations);
}

#[test]
fn slugs_are_filename_safe() {
    assert_eq!(slug("Refund Policy 2026"), "refund-policy-2026");
    assert_eq!(slug("../../etc/passwd"), "etc-passwd");
    assert!(slug("!!!").starts_with("policy-"));
}

#[test]
fn a_name_without_letters_gets_a_random_id() {
    let one = slug("!!!");
    let two = slug("!!!");
    assert_ne!(one, two);
    assert_eq!(one.len(), "policy-".len() + 32);
    assert!(one["policy-".len()..]
        .chars()
        .all(|c| c.is_ascii_digit() || ('a'..='f').contains(&c)));
    assert!(file_name(&one).is_ok());
    assert_eq!(slug_or("!!!", "abc"), "policy-abc");
    assert_eq!(slug_or("Été 1", "abc"), "t-1");
}

#[test]
fn the_store_accepts_derived_ids() {
    for name in ["Refund Policy 2026", "  --x--  ", "A", "ümlaut ß policy"] {
        assert!(file_name(&slug(name)).is_ok(), "{name}");
    }
}

#[test]
fn dashes_stop_after_the_first_48_characters() {
    let name = "a ".repeat(30);
    let id = slug(&name);
    assert_eq!(id, format!("{}{}", "a-".repeat(24), "a".repeat(6)));
}

#[test]
fn only_a_policy_without_an_id_gets_one() {
    let mut p = policy();
    p.id = "  ".into();
    p.name = "Travel Policy".into();
    assert_eq!(assign_id(p).id, "travel-policy");
    assert_eq!(assign_id(policy()).id, "hr");
    assert_eq!(already_exists("hr"), "a policy with the id 'hr' already exists");
}

#[test]
fn the_headline_is_the_most_serious_verdict() {
    assert_eq!(aggregate(&findings(&[])), Verdict::NoTranslations);
    assert_eq!(
        aggregate(&findings(&[Verdict::Valid, Verdict::Invalid, Verdict::Impossible])),
        Verdict::Invalid
    );
    assert_eq!(
        aggregate(&findings(&[Verdict::TooComplex, Verdict::Impossible])),
        Verdict::Impossible
    );
    assert_eq!(
        aggregate(&findings(&[Verdict::Valid, Verdict::TranslationAmbiguous, Verdict::TooComplex])),
        Verdict::TooComplex
    );
    assert_eq!(
        aggregate(&findings(&[Verdict::Satisfiable, Verdict::TranslationAmbiguous])),
        Verdict::TranslationAmbiguous
    );
    assert_eq!(
        aggregate(&findings(&[Verdict::Valid, Verdict::Satisfiable])),
        Verdict::Satisfiable
    );
    assert_eq!(
        aggregate(&findings(&[Verdict::NoTranslations, Verdict::Valid])),
        Verdict::Valid
    );
    assert_eq!(aggregate(&findings(&[Verdict::NoTranslations])), Verdict::NoTranslations);
}

#[test]
fn a_budget_exhaustion_is_never_read_as_approval() {
    let budget = Budget { max_atoms: 0, ..Budget::default() };
    let report = evaluate(
        &policy(),
        &extraction(&["is_manager"], &[("vacation_days <= 30", vec![]), ("1 <= 2", vec![])]),
        &budget,
    );
    assert_eq!(report.result, Verdict::TooComplex);
    let hurried = Budget { time_limit: TimeSpan::from_millis(0), ..Budget::default() };
    let report = evaluate(
        &policy(),
        &extraction(&["is_manager"], &[("vacation_days <= 30", vec![])]),
        &hurried,
    );
    assert_eq!(report.result, Verdict::TooComplex);
}

#[test]
fn reports_are_reproducible() {
    let x = extraction(
        &["is_manager", "nonsense >= 1"],
        &[("vacation_days <= 30", vec![]), ("vacation_days >= 45", vec![])],
    );
    let one = evaluate_untimed(&policy(), &x, &Budget::default());
    let two = evaluate_untimed(&policy(), &x, &Budget::default());
    assert_eq!(one.result, two.result);
    assert_eq!(one.notes, two.notes);
    assert_eq!(one.policy_id, "hr");
    for (a, b) in one.findings.iter().zip(two.findings.iter()) {
        assert_eq!(a.verdict, b.verdict);
        assert_eq!(a.detail, b.detail);
        assert_eq!(a.responsible, b.responsible);
        assert_eq!(a.suggestions, b.suggestions);
    }
}

#[test]
fn an_approved_answer_leans_on_the_rules() {
    let report = evaluate(
        &policy(),
        &extraction(&["is_manager"], &[("vacation_days <= 30", vec!["vacation_days <= 31"])]),
        &Budget::default(),
    );
    assert_eq!(report.result, Verdict::Valid);
    assert!(report.findings[0].responsible.iter().any(|c| c.id == "cap"));
    assert!(report.findings[0].responsible.iter().any(|c| c.id == "fact-1"));
}

#[test]
fn gaps_are_noted_in_order() {
    let mut p = policy();
    p.rules.push(Rule {
        id: "typo".into(),
        statement: String::new(),
        expression: "nope >= 1".into(),
        enabled: true,
    });
    let mut x = extraction(&["also_nope >= 1", "is_manager"], &[]);
    x.notes.push("from the model".into());
    let report = evaluate(&p, &x, &Budget::default());
    assert_eq!(
        report.notes,
        vec![
            "from the model".to_string(),
            "Rule 'typo' was skipped because it does not compile: 'nope' is not a declared variable of this policy".to_string(),
            "Skipped the fact \"also_nope >= 1\": 'also_nope' is not a declared variable of this policy".to_string(),
        ]
    );
    assert_eq!(report.premises.len(), 1);
    assert_eq!(report.premises[0].expression, "is_manager");
}

#[test]
fn disagreement_is_spelled_out() {
    let compiled = CompiledPolicy::compile(&policy());
    let claim = Extracted {
        statement: "s".into(),
        expression: "is_manager".into(),
        alternatives: vec![" is_manager ".into(), "nope".into(), "1 <= 2".into()],
    };
    let f = decide_claim(&compiled.env, &compiled.constraints, &claim, &Budget::default());
    assert_eq!(f.verdict, Verdict::TranslationAmbiguous);
    assert_eq!(
        f.detail,
        "This sentence has more than one reasonable reading and they disagree: as `is_manager` it is satisfiable, but as `1 <= 2` it is valid. Sharpen the answer, or add synonyms to the variable descriptions so the reading is unambiguous."
    );
    assert!(f.counterexample.is_none() && f.supporting_example.is_none());
    assert_eq!(f.claim_statement, "s");
}

#[test]
fn a_draft_comes_with_its_errors() {
    let draft = Draft {
        variables: vec![Variable {
            name: "days".into(),
            ty: VarType::Int,
            description: String::new(),
        }],
        rules: vec![
            Rule {
                id: "rule-1".into(),
                statement: "s".into(),
                expression: "days <= 3".into(),
                enabled: true,
            },
            Rule {
                id: "rule-2".into(),
                statement: "s".into(),
                expression: "weeks <= 3".into(),
                enabled: true,
            },
        ],
        notes: Vec::new(),
    };
    let errors = draft_errors(&draft);
    assert_eq!(errors.len(), 1);
    assert_eq!(errors[0].rule_id, "rule-2");
}

#[test]
fn a_test_case_passes_when_the_verdict_is_the_expected_one() {
    let case = |expected| TestCase {
        id: "t".into(),
        question: String::new(),
        answer: String::new(),
        expected,
        note: String::new(),
    };
    let report = || {
        evaluate(
            &policy(),
            &extraction(&["is_manager"], &[("vacation_days >= 45", vec![])]),
            &Budget::default(),
        )
    };
    let pass = judge(&case(Verdict::Invalid), Ok(report()));
    assert!(pass.passed && pass.error.is_none() && pass.report.is_some());
    let fail = judge(&case(Verdict::Valid), Ok(report()));
    assert!(!fail.passed);
    assert_eq!(fail.actual, Verdict::Invalid);
    let broken = judge(&case(Verdict::NoTranslations), Err("no model".into()));
    assert!(!broken.passed, "an error is no pass, whatever was expected");
    assert_eq!(broken.actual, Verdict::NoTranslations);
    assert_eq!(broken.error, Some("no model".to_string()));
    let run = tally(vec![pass, fail, broken]);
    assert_eq!((run.passed, run.failed, run.results.len()), (1, 2, 3));
}

#[test]
fn suggested_values_are_flattened() {
    let report = evaluate(
        &policy(),
        &extraction(
            &["is_manager", "vacation_days == 30"],
            &[("vacation_days >= 40", vec![])],
        ),
        &Budget::default(),
    );
    assert_eq!(report.result, Verdict::Invalid);
    let values = assignments_of(&report);
    assert_eq!(values.len(), 1);
    assert_eq!(values.get("vacation_days"), Some(&"40".to_string()));
}

#[test]
fn the_check_surface_describes_itself() {
    let d = capability_descriptor();
    assert_eq!(d.text("capability"), Some(&"reasoning.check".to_string()));
    assert_eq!(d.text("version"), Some(&"1.0.0".to_string()));
    assert_eq!(
        d.texts("verdicts"),
        vec![
            "valid",
            "invalid",
            "satisfiable",
            "impossible",
            "no_translations",
            "translation_ambiguous",
            "too_complex"
        ]
    );
    let routes = d.get("routes").expect("routes");
    assert_eq!(routes.get("check").and_then(|r| r.text("path")), Some(&"/check".to_string()));
    assert_eq!(
        write_json(routes.get("solve").expect("solve")),
        "{\"body\":{\"claims\":[\"expression\"],\"policy_id\":\"string\",\"premises\":[\"expression\"]},\"method\":\"POST\",\"path\":\"/solve\"}"
    );
    assert!(matches!(d, Json::Object(_)));
}

#[test]
fn a_contradictory_policy_passes_nothing() {
    let mut p = policy();
    p.rules.push(Rule {
        id: "floor".into(),
        statement: String::new(),
        expression: "vacation_days >= 40".into(),
        enabled: true,
    });
    let report = evaluate(
        &p,
        &extraction(
            &["is_manager"],
            &[
                ("vacation_days <= 30", vec![]),
                ("vacation_days >= 31", vec!["is_manager"]),
                ("not is_manager", vec![]),
            ],
        ),
        &Budget::default(),
    );
    assert_eq!(report.result, Verdict::Impossible);
    assert!(report.findings.iter().all(|f| f.verdict == Verdict::Impossible));
}
