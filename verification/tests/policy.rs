use ryu_reasoning::logic::{VarType, Variable};
use ryu_reasoning::policy::{analyze, analyze_untimed, CompiledPolicy, Policy, Rule};
use ryu_reasoning::solver::Budget;

fn policy(rules: &[(&str, &str)]) -> Policy {
    Policy {
        id: "p1".into(),
        name: "Test".into(),
        description: String::new(),
        version: 1,
        variables: vec![
            Variable {
                name: "is_manager".into(),
                ty: VarType::Bool,
                description: String::new(),
            },
            Variable {
                name: "days".into(),
                ty: VarType::Int,
                description: String::new(),
            },
            Variable {
                name: "unused".into(),
                ty: VarType::Bool,
                description: String::new(),
            },
        ],
        rules: rules
            .iter()
            .map(|(id, expr)| Rule {
                id: (*id).into(),
                statement: String::new(),
                expression: (*expr).into(),
                enabled: true,
            })
            .collect(),
        tests: Vec::new(),
        source_document: None,
        created_at: String::new(),
        updated_at: String::new(),
    }
}

#[test]
fn a_broken_expression_is_reported_not_dropped() {
    let compiled = CompiledPolicy::compile(&policy(&[("r1", "no_such_var >= 1")]));
    assert!(compiled.constraints.is_empty());
    assert_eq!(compiled.errors.len(), 1);
    assert!(compiled.errors[0].message.contains("no_such_var"));
}

#[test]
fn conflicting_rules_are_named() {
    let out = analyze(
        &policy(&[("r1", "days >= 10"), ("r2", "days <= 2"), ("r3", "is_manager")]),
        &Budget::default(),
    );
    assert!(!out.consistent);
    assert_eq!(out.conflicting_rules.len(), 2);
    assert!(out.conflicting_rules.contains(&"r1".to_string()));
    assert!(out.conflicting_rules.contains(&"r2".to_string()));
}

#[test]
fn a_rule_implied_by_another_is_flagged_redundant() {
    let out = analyze(
        &policy(&[("r1", "days >= 10"), ("r2", "days >= 5")]),
        &Budget::default(),
    );
    assert!(out.consistent);
    assert_eq!(out.redundant_rules, vec!["r2".to_string()]);
}

#[test]
fn declared_but_unconstrained_variables_are_listed() {
    let out = analyze(&policy(&[("r1", "days >= 10")]), &Budget::default());
    assert!(out.unused_variables.contains(&"unused".to_string()));
    assert!(out.unused_variables.contains(&"is_manager".to_string()));
}

#[test]
fn no_enabled_rule_goes_missing() {
    let mut p = policy(&[("good", "days >= 1"), ("bad", "dayz >= 1"), ("off", "days >= 2")]);
    p.rules[2].enabled = false;
    let compiled = CompiledPolicy::compile(&p);
    assert_eq!(compiled.constraints.len() + compiled.errors.len(), 2);
    assert_eq!(compiled.constraints[0].id, "good");
    assert_eq!(compiled.errors[0].rule_id, "bad");
    assert_eq!(compiled.errors[0].position, 5);
}

#[test]
fn a_rule_without_prose_is_quoted_by_its_formula() {
    let mut p = policy(&[("a", "days >= 1"), ("b", "days >= 2")]);
    p.rules[1].statement = "At least two.".into();
    let compiled = CompiledPolicy::compile(&p);
    assert_eq!(compiled.constraints[0].statement, "days >= 1");
    assert_eq!(compiled.constraints[1].statement, "At least two.");
}

#[test]
fn an_analysis_that_ran_out_of_budget_says_so() {
    let budget = Budget { max_atoms: 0, ..Budget::default() };
    let out = analyze(&policy(&[("r1", "days >= 10")]), &budget);
    assert!(out.consistent, "running out is no proof of a conflict");
    assert_eq!(
        out.incomplete,
        Some("formula has 1 distinct atoms, over the limit of 0".to_string())
    );
}

#[test]
fn analysis_is_repeatable() {
    let p = policy(&[("r1", "days >= 10"), ("r2", "days <= 2"), ("r3", "is_manager")]);
    let one = analyze_untimed(&p, &Budget::default());
    let two = analyze_untimed(&p, &Budget::default());
    assert_eq!(one.conflicting_rules, two.conflicting_rules);
    assert_eq!(one.consistent, two.consistent);
}

#[test]
fn no_conflicting_rule_can_be_left_out() {
    let rules = [
        ("r1", "is_manager"),
        ("r2", "is_manager -> days >= 10"),
        ("r3", "days <= 20"),
        ("r4", "days < 5"),
    ];
    let named = analyze(&policy(&rules), &Budget::default()).conflicting_rules;
    assert_eq!(named, vec!["r1", "r2", "r4"]);
    for left_out in &named {
        let rest: Vec<(&str, &str)> = rules
            .iter()
            .filter(|(id, _)| named.iter().any(|n| n == id) && id != left_out)
            .copied()
            .collect();
        assert!(analyze(&policy(&rest), &Budget::default()).consistent);
    }
}
