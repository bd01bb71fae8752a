use ryu_reasoning::logic::{Atom, Expr, Linear, VarType};
use ryu_reasoning::num::Rat;

fn b(name: &str) -> Expr {
    Expr::Bool(name.into())
}

#[test]
fn implication_normalizes_to_a_disjunction() {
    let a = Expr::Bool("a".into());
    let b = Expr::Bool("b".into());
    assert_eq!(
        a.implies(b),
        Expr::Or(vec![
            Expr::Not(Box::new(Expr::Bool("a".into()))),
            Expr::Bool("b".into())
        ])
    );
}

#[test]
fn double_negation_collapses() {
    let a = Expr::Bool("a".into());
    assert_eq!(a.clone().not().not(), a);
}

#[test]
fn conjunction_flattens_and_absorbs_constants() {
    let e = Expr::and(vec![
        Expr::Const(true),
        Expr::and(vec![Expr::Bool("a".into()), Expr::Bool("b".into())]),
    ]);
    assert_eq!(
        e,
        Expr::And(vec![Expr::Bool("a".into()), Expr::Bool("b".into())])
    );
    assert_eq!(
        Expr::and(vec![Expr::Bool("a".into()), Expr::Const(false)]),
        Expr::Const(false)
    );
}

#[test]
fn linear_forms_share_a_key_when_structurally_equal() {
    let a = Linear::var("x").add(&Linear::constant(Rat::whole(-3))).unwrap();
    let b = Linear::constant(Rat::whole(-3)).add(&Linear::var("x")).unwrap();
    assert_eq!(a.key(), b.key());
}

#[test]
fn scaling_by_zero_drops_the_variables() {
    let l = Linear::var("x").scale(Rat::zero()).unwrap();
    assert!(l.is_constant());
}

#[test]
fn disjunction_flattens_and_absorbs_constants() {
    let e = Expr::or(vec![Expr::Const(false), Expr::or(vec![b("a"), b("b")])]);
    assert_eq!(e, Expr::Or(vec![b("a"), b("b")]));
    assert_eq!(Expr::or(vec![b("a"), Expr::Const(true)]), Expr::Const(true));
}

#[test]
fn one_item_stands_for_itself_and_none_for_a_constant() {
    assert_eq!(Expr::and(vec![b("a")]), b("a"));
    assert_eq!(Expr::or(vec![b("a")]), b("a"));
    assert_eq!(Expr::and(vec![]), Expr::Const(true));
    assert_eq!(Expr::or(vec![]), Expr::Const(false));
}

#[test]
fn constants_flip_under_negation() {
    assert_eq!(Expr::Const(true).not(), Expr::Const(false));
    assert_eq!(Expr::Const(false).not(), Expr::Const(true));
}

#[test]
fn equivalence_is_two_implications() {
    let e = b("a").iff(b("b"));
    assert_eq!(
        e,
        Expr::And(vec![
            Expr::Or(vec![Expr::Not(Box::new(b("a"))), b("b")]),
            Expr::Or(vec![Expr::Not(Box::new(b("b"))), b("a")]),
        ])
    );
}

#[test]
fn opposite_terms_cancel() {
    let x = Linear::var("x");
    let minus = x.neg().unwrap();
    let sum = x.add(&minus).unwrap();
    assert!(sum.is_constant());
    assert!(sum.offset().is_zero());
    assert!(x.sub(&x).unwrap().is_constant());
}

#[test]
fn coefficients_are_found_by_name() {
    let l = Linear::var("x").scale(Rat::whole(3)).unwrap().add(&Linear::var("y")).unwrap();
    assert_eq!(l.coeff("x"), Rat::whole(3));
    assert_eq!(l.coeff("y"), Rat::one());
    assert_eq!(l.coeff("z"), Rat::zero());
    assert_eq!(l.terms().len(), 2);
}

#[test]
fn scaling_beyond_the_range_is_refused() {
    let huge = Rat::new(i128::MAX, 1).unwrap();
    let l = Linear::var("x").scale(huge).unwrap();
    assert!(l.scale(huge).is_none());
    assert!(l.add(&l).is_none());
}

#[test]
fn variables_are_listed_as_they_appear() {
    let e = Expr::and(vec![b("z"), b("a"), b("z").not()]);
    let mut out = vec!["first".to_string()];
    e.vars(&mut out);
    assert_eq!(out, vec!["first", "z", "a", "z"]);
}

#[test]
fn atoms_are_listed_in_order_of_appearance() {
    let e = Expr::or(vec![b("z"), Expr::EnumEq("s".into(), "v".into()), b("a").not()]);
    let mut out = Vec::new();
    e.atoms(&mut out);
    assert_eq!(
        out,
        vec![
            Atom::Bool("z".into()),
            Atom::EnumEq("s".into(), "v".into()),
            Atom::Bool("a".into())
        ]
    );
}

#[test]
fn sorts_have_labels() {
    assert_eq!(VarType::Bool.label(), "bool");
    assert_eq!(VarType::Int.label(), "int");
    assert_eq!(VarType::Real.label(), "real");
    assert_eq!(VarType::Enum { values: vec![] }.label(), "enum");
    assert!(VarType::Int.is_numeric());
    assert!(VarType::Real.is_numeric());
    assert!(!VarType::Bool.is_numeric());
}

#[test]
fn keys_tell_forms_and_atoms_apart() {
    let k = |n: i64| Linear::constant(Rat::whole(n));
    let x = Linear::var("x");
    let y = Linear::var("y");
    let a = x.add(&y).and_then(|l| l.add(&k(1))).expect("in range");
    let b = k(1).add(&y).and_then(|l| l.add(&x)).expect("in range");
    assert_eq!(a, b);
    assert_eq!(a.key(), b.key());
    assert_eq!(a.key(), "1*x+1*y+1");
    let forms = [a.clone(), x.clone(), y.clone(), k(1), k(0), x.neg().expect("in range")];
    for (i, f) in forms.iter().enumerate() {
        for (j, g) in forms.iter().enumerate() {
            assert_eq!(f.key() == g.key(), i == j);
        }
    }
    let atoms = [
        Atom::Bool("x".into()),
        Atom::EnumEq("x".into(), "v".into()),
        Atom::EnumEq("x".into(), "v=w".into()),
        Atom::EnumEq("x".into(), "".into()),
        Atom::Le(a.clone()),
        Atom::Lt(a),
        Atom::Le(x),
    ];
    for (i, f) in atoms.iter().enumerate() {
        for (j, g) in atoms.iter().enumerate() {
            assert_eq!(f.key() == g.key(), i == j);
        }
    }
}
