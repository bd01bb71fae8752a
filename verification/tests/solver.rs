use ryu_reasoning::clock::{Clock, TimeSpan};
use ryu_reasoning::logic::{Expr, Linear, VarType, Variable};
use ryu_reasoning::num::Rat;
use ryu_reasoning::parser::parse;
use ryu_reasoning::solver::{
    decide, decide_untimed, fourier_motzkin, is_sat, pick_value, solve, with_atom_table, Budget,
    Env, Feasible, NumConstraint, Outcome, Value,
};
use ryu_reasoning::theory::Limit;

fn env() -> Env {
    Env::from_variables(&[
        Variable {
            name: "is_manager".into(),
            ty: VarType::Bool,
            description: String::new(),
        },
        Variable {
            name: "tenure_months".into(),
            ty: VarType::Int,
            description: String::new(),
        },
        Variable {
            name: "vacation_days".into(),
            ty: VarType::Int,
            description: String::new(),
        },
        Variable {
            name: "discount".into(),
            ty: VarType::Real,
            description: String::new(),
        },
        Variable {
            name: "status".into(),
            ty: VarType::Enum {
                values: vec!["active".into(), "leave".into(), "terminated".into()],
            },
            description: String::new(),
        },
    ])
}

fn p(src: &str) -> Expr {
    parse(src, &env()).unwrap_or_else(|e| panic!("parse {src}: {}", e.to_display()))
}

fn reason(out: &Outcome) -> String {
    match out {
        Outcome::Unknown(why) => why.clone(),
        other => panic!("expected unknown, got {other:?}"),
    }
}

#[test]
fn simple_conjunction_is_satisfiable() {
    let out = decide(&env(), &[p("is_manager"), p("tenure_months >= 12")], &Budget::default());
    let model = out.model().expect("sat");
    assert_eq!(model.values.get("is_manager"), Some(&Value::Bool(true)));
}

#[test]
fn contradictory_bounds_are_unsat() {
    let out = decide(
        &env(),
        &[p("tenure_months >= 12"), p("tenure_months <= 5")],
        &Budget::default(),
    );
    assert!(out.is_unsat(), "expected unsat, got {out:?}");
}

#[test]
fn enum_cannot_take_two_values_at_once() {
    let out = decide(
        &env(),
        &[p("status == \"active\""), p("status == \"leave\"")],
        &Budget::default(),
    );
    assert!(out.is_unsat(), "expected unsat, got {out:?}");
}

#[test]
fn ruling_out_every_enum_value_is_unsat() {
    let out = decide(
        &env(),
        &[
            p("status != \"active\""),
            p("status != \"leave\""),
            p("status != \"terminated\""),
        ],
        &Budget::default(),
    );
    assert!(out.is_unsat(), "expected unsat, got {out:?}");
}

#[test]
fn integer_gap_is_detected_by_branch_and_bound() {
    // 0 < tenure_months < 1 has rational solutions but no integer one.
    let out = decide(
        &env(),
        &[p("tenure_months > 0"), p("tenure_months < 1")],
        &Budget::default(),
    );
    assert!(out.is_unsat(), "expected unsat, got {out:?}");
}

#[test]
fn the_same_gap_is_satisfiable_for_a_real() {
    let out = decide(&env(), &[p("discount > 0"), p("discount < 1")], &Budget::default());
    assert!(out.is_sat(), "expected sat, got {out:?}");
}

#[test]
fn exact_decimals_do_not_drift() {
    // With f64 this is unsatisfiable by rounding; with rationals it is not.
    let out = decide(
        &env(),
        &[p("discount == 0.1 + 0.2"), p("discount <= 0.3")],
        &Budget::default(),
    );
    assert!(out.is_sat(), "expected sat, got {out:?}");
}

#[test]
fn disjunction_explores_both_arms() {
    let out = decide(
        &env(),
        &[p("tenure_months <= 5 or tenure_months >= 100"), p("tenure_months >= 50")],
        &Budget::default(),
    );
    let model = out.model().expect("sat");
    assert_eq!(
        model.values.get("tenure_months"),
        Some(&Value::Number("100".into()))
    );
}

#[test]
fn a_starved_budget_returns_unknown_not_a_verdict() {
    let budget = Budget {
        max_branch_nodes: 1,
        ..Budget::default()
    };
    let out = decide(
        &env(),
        &[p("is_manager or tenure_months >= 12"), p("not is_manager"), p("tenure_months <= 5")],
        &budget,
    );
    assert!(out.is_unknown(), "a starved search must not claim unsat: {out:?}");
}

#[test]
fn too_many_atoms_is_refused_up_front() {
    let budget = Budget {
        max_atoms: 1,
        ..Budget::default()
    };
    let out = decide(&env(), &[p("is_manager"), p("tenure_months >= 1")], &budget);
    assert!(out.is_unknown(), "{out:?}");
}

#[test]
fn each_ceiling_names_itself() {
    let cs = [p("is_manager or tenure_months >= 12"), p("not is_manager"), p("tenure_months <= 5")];
    let few_atoms = Budget { max_atoms: 1, ..Budget::default() };
    assert_eq!(
        reason(&decide(&env(), &cs, &few_atoms)),
        "formula has 3 distinct atoms, over the limit of 1"
    );
    let few_nodes = Budget { max_branch_nodes: 1, ..Budget::default() };
    assert_eq!(reason(&decide(&env(), &cs, &few_nodes)), "boolean search exceeded 1 nodes");
    let few_constraints = Budget { max_fm_constraints: 0, ..Budget::default() };
    assert_eq!(
        reason(&decide(&env(), &[p("tenure_months >= 1"), p("tenure_months <= 5")], &few_constraints)),
        "Fourier–Motzkin elimination exceeded 0 constraints"
    );
    let few_branches = Budget { max_int_branches: 0, ..Budget::default() };
    assert_eq!(
        reason(&decide(&env(), &[p("2 * tenure_months == 5")], &few_branches)),
        "integer branch-and-bound exceeded 0 branches"
    );
    let no_time = Budget { time_limit: TimeSpan::from_millis(0), ..Budget::default() };
    assert_eq!(reason(&decide(&env(), &cs, &no_time)), "search exceeded its 0 ms time limit");
}

#[test]
fn overflow_is_never_a_verdict() {
    let big = "170141183460469231731687303715884105727";
    let cs = [
        p(&format!("{big} * discount >= 1")),
        p(&format!("discount * 3 <= {big} * vacation_days")),
        p("vacation_days * 7 <= discount"),
    ];
    let out = decide(&env(), &cs, &Budget::default());
    assert!(!out.is_unsat(), "{out:?}");
}

#[test]
fn without_a_clock_the_answer_is_the_same() {
    let no_time = Budget { time_limit: TimeSpan::from_millis(0), ..Budget::default() };
    let cs = [p("tenure_months >= 12"), p("tenure_months <= 5")];
    assert!(decide_untimed(&env(), &cs, &no_time).is_unsat());
    assert!(decide(&env(), &cs, &Budget::default()).is_unsat());
}

#[test]
fn the_entry_points_agree() {
    let cs = [p("is_manager"), p("not is_manager")];
    assert!(solve(&env(), &cs, &Budget::default()).is_unsat());
    assert!(is_sat(&env(), &cs, &Budget::default()).is_unsat());
    assert!(decide(&env(), &cs, &Budget::default()).is_unsat());
}

#[test]
fn a_model_gives_every_variable_a_value() {
    let out = decide(
        &env(),
        &[p("is_manager or status == \"leave\" or tenure_months >= 3")],
        &Budget::default(),
    );
    let model = out.model().expect("sat");
    assert_eq!(model.values.len(), 3);
    assert!(model.values.contains_key("is_manager"));
    assert!(model.values.contains_key("status"));
    assert!(model.values.contains_key("tenure_months"));
}

#[test]
fn a_model_satisfies_what_it_was_asked() {
    let out = decide(
        &env(),
        &[p("not is_manager"), p("status != \"active\""), p("discount * 4 == 1")],
        &Budget::default(),
    );
    let model = out.model().expect("sat");
    assert_eq!(model.values.get("is_manager"), Some(&Value::Bool(false)));
    assert_ne!(model.values.get("status"), Some(&Value::Text("active".into())));
    assert_eq!(model.values.get("discount"), Some(&Value::Number("0.25".into())));
}

#[test]
fn a_formula_without_atoms_decides_itself() {
    assert!(decide(&env(), &[Expr::Const(true)], &Budget::default()).is_sat());
    assert!(decide(&env(), &[Expr::Const(false)], &Budget::default()).is_unsat());
    assert!(decide(&env(), &[], &Budget::default()).is_sat());
}

#[test]
fn the_atom_table_lists_each_atom_once() {
    let n = with_atom_table(&[p("is_manager or tenure_months >= 1"), p("not is_manager")], |t| {
        t.len()
    });
    assert_eq!(n, 2);
}

#[test]
fn sorts_are_looked_up_by_name() {
    assert!(env().is_int("tenure_months"));
    assert!(!env().is_int("discount"));
    assert_eq!(env().get("is_manager"), Some(&VarType::Bool));
    assert_eq!(env().get("nobody"), None);
    assert_eq!(Env::default().get("is_manager"), None);
}

#[test]
fn values_render_as_they_are_written() {
    assert_eq!(Value::Bool(true).render(), "true");
    assert_eq!(Value::Bool(false).render(), "false");
    assert_eq!(Value::Text("leave".into()).render(), "leave");
    assert_eq!(Value::Number("1/3".into()).render(), "1/3");
}

#[test]
fn formulas_without_numbers_are_decided_within_the_default_budget() {
    let vars: Vec<Variable> = (0..13)
        .map(|i| Variable {
            name: format!("b{i}"),
            ty: VarType::Bool,
            description: String::new(),
        })
        .collect();
    let env = Env::from_variables(&vars);
    let read = |src: &str| parse(src, &env).unwrap_or_else(|e| panic!("{}", e.to_display()));
    let mut cs: Vec<Expr> = (0..12).map(|i| read(&format!("b{i} <-> b{}", i + 1))).collect();
    assert!(decide(&env, &cs, &Budget::default()).is_sat());
    cs.push(read("b0 <-> not b12"));
    assert!(decide(&env, &cs, &Budget::default()).is_unsat());
}

fn rat(n: i128, d: i128) -> Rat {
    Rat::new(n, d).expect("a fraction")
}

#[test]
fn a_picked_value_is_whole_where_the_bounds_allow() {
    let pick = |lo, up| pick_value(lo, up);
    assert_eq!(pick(Some((rat(1, 2), false)), Some((rat(5, 2), false))), Some(rat(1, 1)));
    assert_eq!(pick(Some((rat(1, 1), true)), Some((rat(2, 1), false))), Some(rat(2, 1)));
    assert_eq!(pick(None, Some((rat(3, 1), true))), Some(rat(2, 1)));
    assert_eq!(pick(None, None), Some(rat(0, 1)));
    assert_eq!(pick(Some((rat(1, 1), true)), Some((rat(2, 1), true))), Some(rat(3, 2)));
    assert_eq!(pick(Some((rat(1, 3), false)), Some((rat(1, 3), false))), Some(rat(1, 3)));
    assert_eq!(pick(Some((rat(3, 1), false)), Some((rat(1, 1), false))), None);
    assert_eq!(pick(Some((rat(i128::MAX, 1), true)), None), None);
}

/// `a x + b y + k <= 0`, or `< 0`.
fn bound(a: i64, b: i64, k: i64, strict: bool) -> NumConstraint {
    let term = |n: i64, name: &str| Linear::var(name).scale(Rat::whole(n)).expect("in range");
    let lin = term(a, "x")
        .add(&term(b, "y"))
        .and_then(|l| l.add(&Linear::constant(Rat::whole(k))))
        .expect("in range");
    NumConstraint { lin, strict }
}

#[test]
fn elimination_finds_values_or_that_there_are_none() {
    let clock = Clock::stopped(TimeSpan::from_secs(1));
    // x + y <= 4, x > 3, y >= 0
    let mut cs = vec![bound(1, 1, -4, false), bound(-1, 0, 3, true), bound(0, -1, 0, false)];
    let model = match fourier_motzkin(&cs, 100, &clock) {
        Feasible::Feasible(m) => m,
        other => panic!("{other:?}"),
    };
    let (x, y) = (*model.get("x").expect("x"), *model.get("y").expect("y"));
    assert_eq!(model.len(), 2);
    assert!(x > rat(3, 1) && y >= rat(0, 1) && x.add(y).expect("a sum") <= rat(4, 1));
    // ... and y >= 1
    cs.push(bound(0, -1, 1, false));
    assert!(matches!(fourier_motzkin(&cs, 100, &clock), Feasible::Infeasible));
    assert!(matches!(fourier_motzkin(&cs, 1, &clock), Feasible::Stop(Limit::Constraints)));
    assert!(matches!(fourier_motzkin(&vec![], 1, &clock), Feasible::Feasible(_)));
}

#[test]
fn equal_bounds_are_equal_however_large() {
    // Cross products of this fraction with itself do not fit.
    let c = rat((1 << 64) + 1, 1 << 64);
    assert_eq!(c.rank(c), None);
    assert_eq!(pick_value(Some((c, false)), Some((c, false))), Some(c));
    let below = Linear::var("discount").sub(&Linear::constant(c)).expect("in range");
    let cs = [Expr::Lt(below.clone()), Expr::Le(below)];
    assert!(decide(&env(), &cs, &Budget::default()).is_sat());
}

#[test]
fn a_smaller_budget_never_turns_an_answer_into_its_opposite() {
    let questions = [
        vec![p("tenure_months * 2 == vacation_days * 2 + 1"), p("vacation_days >= 0")],
        vec![p("is_manager or tenure_months >= 3"), p("tenure_months < 3 or discount > 1")],
        vec![p("status == \"active\" or status == \"leave\""), p("status == \"terminated\"")],
        // A name that is a number by its sort and a truth value by its use.
        vec![Expr::Bool("tenure_months".into()), p("tenure_months >= 1")],
    ];
    for cs in &questions {
        let full = decide_untimed(&env(), cs, &Budget::default());
        for n in 0..12usize {
            let small = Budget {
                max_atoms: n,
                max_branch_nodes: 3 * n,
                max_fm_constraints: n,
                max_int_branches: n,
                ..Budget::default()
            };
            let out = decide_untimed(&env(), cs, &small);
            assert!(matches!(out, Outcome::Unknown(_)) || format!("{out:?}") == format!("{full:?}"));
        }
    }
}
