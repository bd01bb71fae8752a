use ryu_reasoning::num::Rat;
use ryu_reasoning::text::Rank;

fn rat(n: i128, d: i128) -> Rat {
    Rat::new(n, d).unwrap()
}

#[test]
fn reduces_and_normalizes_sign() {
    let r = Rat::new(4, -8).unwrap();
    assert_eq!(r.numer(), -1);
    assert_eq!(r.denom(), 2);
}

#[test]
fn decimal_addition_is_exact_where_floats_are_not() {
    // The float trap this module exists to avoid: 0.1 + 0.2 > 0.3 in f64.
    let tenth = Rat::new(1, 10).unwrap();
    let fifth = Rat::new(2, 10).unwrap();
    let three_tenths = Rat::new(3, 10).unwrap();
    assert_eq!(tenth.add(fifth).unwrap(), three_tenths);
    assert!(tenth.add(fifth).unwrap() <= three_tenths);
}

#[test]
fn floor_and_ceil_round_toward_minus_and_plus_infinity() {
    assert_eq!(Rat::new(7, 2).unwrap().floor().unwrap(), 3);
    assert_eq!(Rat::new(7, 2).unwrap().ceil().unwrap(), 4);
    assert_eq!(Rat::new(-7, 2).unwrap().floor().unwrap(), -4);
    assert_eq!(Rat::new(-7, 2).unwrap().ceil().unwrap(), -3);
}

#[test]
fn overflow_is_none_not_wraparound() {
    let huge = Rat::new(i128::MAX, 1).unwrap();
    assert!(huge.add(huge).is_none());
    assert!(huge.mul(huge).is_none());
}

#[test]
fn display_prefers_short_decimals() {
    assert_eq!(Rat::new(1, 4).unwrap().to_display(), "0.25");
    assert_eq!(Rat::new(5, 1).unwrap().to_display(), "5");
    assert_eq!(Rat::new(1, 3).unwrap().to_display(), "1/3");
}

#[test]
fn a_zero_denominator_is_no_number() {
    assert!(Rat::new(1, 0).is_none());
    assert!(Rat::new(0, 0).is_none());
}

#[test]
fn zero_has_one_form() {
    assert_eq!(rat(0, -7), Rat::zero());
    assert_eq!(Rat::zero().denom(), 1);
    assert_eq!(Rat::default(), Rat::zero());
}

#[test]
fn constants_are_what_they_are_called() {
    assert_eq!(Rat::zero().numer(), 0);
    assert_eq!(Rat::one().numer(), 1);
    assert_eq!(Rat::whole(-7), rat(-7, 1));
    assert_eq!(Rat::integral(12), rat(12, 1));
}

#[test]
fn arithmetic_is_exact() {
    assert_eq!(rat(1, 2).sub(rat(1, 3)).unwrap(), rat(1, 6));
    assert_eq!(rat(2, 3).mul(rat(3, 4)).unwrap(), rat(1, 2));
    assert_eq!(rat(1, 2).div(rat(1, 4)).unwrap(), rat(2, 1));
    assert_eq!(rat(1, 2).neg().unwrap(), rat(-1, 2));
    assert_eq!(rat(1, 2).midpoint(rat(1, 3)).unwrap(), rat(5, 12));
    assert!(rat(1, 2).div(Rat::zero()).is_none());
}

#[test]
fn signs_and_integers_are_recognised() {
    assert!(rat(-1, 3).is_negative());
    assert!(!rat(-1, 3).is_positive());
    assert!(rat(1, 3).is_positive());
    assert!(Rat::zero().is_zero());
    assert!(rat(6, 3).is_integer());
    assert!(!rat(7, 3).is_integer());
}

#[test]
fn order_is_that_of_the_numbers() {
    assert!(rat(1, 3) < rat(1, 2));
    assert!(rat(-1, 2) < rat(-1, 3));
    assert!(matches!(rat(2, 4).rank(rat(1, 2)), Some(Rank::Same)));
    assert!(matches!(rat(1, 3).rank(rat(1, 2)), Some(Rank::Less)));
    assert!(matches!(rat(1, 1).rank(rat(1, 2)), Some(Rank::More)));
}

#[test]
fn negative_decimals_keep_their_sign() {
    assert_eq!(rat(-1, 4).to_display(), "-0.25");
    assert_eq!(rat(-5, 2).to_display(), "-2.5");
    assert_eq!(rat(1, 8).to_display(), "0.125");
    assert_eq!(rat(-1, 3).to_display(), "-1/3");
    assert_eq!(rat(3, 200).to_display(), "0.015");
}

#[test]
fn a_bar_stands_where_nine_places_do_not_suffice() {
    let shown = |n, d| Rat::new(n, d).expect("a fraction").to_display();
    assert_eq!(shown(1, 512), "0.001953125");
    assert_eq!(shown(1, 1024), "1/1024");
    assert_eq!(shown(-3, 1_000_000_000), "-0.000000003");
    assert_eq!(shown(1, 10_000_000_000), "1/10000000000");
    assert_eq!(shown(50, 20), "2.5");
    assert_eq!(shown(200, 2), "100");
    assert_eq!(shown(i128::MAX, 2), format!("{}/2", i128::MAX));
    for d in 1..200i128 {
        for n in -60..60i128 {
            let s = shown(n, d);
            assert!(!(s.contains('.') && s.ends_with('0')));
            assert_eq!(s == shown(n + 1, d + 1), Rat::new(n, d) == Rat::new(n + 1, d + 1));
        }
    }
}
