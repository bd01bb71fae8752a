use ryu_reasoning::logic::{Expr, VarType, Variable};
use ryu_reasoning::parser::parse;
use ryu_reasoning::solver::{decide, Budget, Env};

fn env() -> Env {
    Env::from_variables(&[
        Variable {
            name: "is_manager".into(),
            ty: VarType::Bool,
            description: String::new(),
        },
        Variable {
            name: "tenure_months".into(),
            ty: VarType::Int,
            description: String::new(),
        },
        Variable {
            name: "rate".into(),
            ty: VarType::Real,
            description: String::new(),
        },
        Variable {
            name: "status".into(),
            ty: VarType::Enum {
                values: vec!["active".into(), "leave".into()],
            },
            description: String::new(),
        },
    ])
}

fn message(src: &str) -> String {
    parse(src, &env()).unwrap_err().message
}

#[test]
fn implication_and_conjunction_parse() {
    let e = parse("is_manager and tenure_months >= 12 -> rate <= 0.5", &env()).unwrap();
    // Well-formed and decidable is the contract; the exact shape is normalized.
    assert!(decide(&env(), &[e], &Budget::default()).is_sat());
}

#[test]
fn unknown_variable_is_rejected_by_name() {
    let err = parse("tenur_months >= 12", &env()).unwrap_err();
    assert!(err.message.contains("tenur_months"), "{}", err.message);
}

#[test]
fn undeclared_enum_value_is_rejected() {
    let err = parse("status == \"retired\"", &env()).unwrap_err();
    assert!(err.message.contains("retired"), "{}", err.message);
}

#[test]
fn nonlinear_multiplication_is_rejected() {
    let err = parse("tenure_months * rate <= 10", &env()).unwrap_err();
    assert!(err.message.contains("linear"), "{}", err.message);
}

#[test]
fn enum_compared_to_a_number_is_rejected() {
    let err = parse("status >= 3", &env()).unwrap_err();
    assert!(!err.message.is_empty());
}

#[test]
fn decimals_are_exact() {
    let e = parse("rate == 0.1 + 0.2 and rate <= 0.3", &env()).unwrap();
    assert!(
        decide(&env(), &[e], &Budget::default()).is_sat(),
        "0.1 + 0.2 must be exactly 0.3"
    );
}

#[test]
fn precedence_puts_implication_last() {
    // Parsed as `(a and b) -> c`, so a model with a=false satisfies it.
    let e = parse(
        "is_manager and tenure_months >= 12 -> tenure_months >= 24",
        &env(),
    )
    .unwrap();
    let extra = parse("not is_manager", &env()).unwrap();
    assert!(decide(&env(), &[e, extra], &Budget::default()).is_sat());
}

#[test]
fn a_bare_number_is_not_a_condition() {
    let err = parse("tenure_months", &env()).unwrap_err();
    assert!(err.message.contains("not a condition"), "{}", err.message);
}

#[test]
fn alternative_spellings_are_accepted() {
    for src in [
        "is_manager && tenure_months > 1",
        "is_manager AND tenure_months > 1",
        "is_manager implies tenure_months > 1",
        "!is_manager || tenure_months > 1",
    ] {
        assert!(parse(src, &env()).is_ok(), "failed to parse: {src}");
    }
}

#[test]
fn truth_values_are_constants() {
    assert_eq!(parse("true", &env()).unwrap(), Expr::Const(true));
    assert_eq!(parse("FALSE", &env()).unwrap(), Expr::Const(false));
    assert!(parse("1 <= 2", &env()).is_ok());
}

#[test]
fn every_way_to_go_wrong_has_its_message() {
    assert_eq!(message(""), "the expression is empty");
    assert_eq!(message("is_manager and"), "expression ended early");
    assert_eq!(message("(is_manager"), "missing ')'");
    assert_eq!(message("is_manager is_manager"), "unexpected trailing input");
    assert_eq!(message("is_manager @"), "unexpected character '@'");
    assert_eq!(message("status == \"active"), "unterminated string literal");
    assert_eq!(message("rate / 0 <= 1"), "division by zero");
    assert_eq!(
        message("1 / rate <= 1"),
        "division by a variable is not supported — rules must stay linear"
    );
    assert_eq!(
        message("rate * rate <= 1"),
        "two variables cannot be multiplied — rules must stay linear (multiply by a number instead)"
    );
    assert_eq!(message("is_manager < true"), "booleans can only be compared with == or !=");
    assert_eq!(
        message("status < \"active\""),
        "'status' is an enum, so it can only be compared with == or !="
    );
    assert_eq!(
        message("status == \"retired\""),
        "\"retired\" is not a declared value of 'status' (declared: active, leave)"
    );
    assert_eq!(
        message("wage >= 1"),
        "'wage' is not a declared variable of this policy"
    );
    assert_eq!(
        message("tenure_months"),
        "'tenure_months' is a number, not a condition — compare it with something"
    );
    assert_eq!(
        message("status"),
        "'status' is an enum — write something like status == \"...\""
    );
    assert_eq!(message("\"active\""), "the text \"active\" is not a condition on its own");
    assert_eq!(
        message("is_manager + 1 <= 2"),
        "a condition cannot be used inside arithmetic"
    );
    assert_eq!(
        message("99999999999999999999999999999999999999999999 <= rate"),
        "number is too large to represent exactly"
    );
}

#[test]
fn an_error_points_at_its_place() {
    let err = parse("is_manager and wage >= 1", &env()).unwrap_err();
    assert_eq!(err.position, 20, "the token after the name");
    assert_eq!(
        err.to_display(),
        "'wage' is not a declared variable of this policy (at character 20)"
    );
    assert_eq!(parse("is_manager and wage", &env()).unwrap_err().position, 0, "past the end");
}

#[test]
fn an_enum_may_stand_on_either_side() {
    let a = parse("status == \"active\"", &env()).unwrap();
    let b = parse("\"active\" == status", &env()).unwrap();
    assert_eq!(a, b);
    assert_eq!(a, Expr::EnumEq("status".into(), "active".into()));
}
