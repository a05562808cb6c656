use field_expr::{Defect, EvalCountingExpression, FieldElement, ParseError, Probes};

const P: u64 = 1_000_000_007;
const Q: u64 = 998_244_353;

fn at<const M: u64, const N: usize>(values: [u64; N]) -> [FieldElement<M>; N] {
    values.map(FieldElement::<M>::new)
}

#[test]
fn a_new_count_is_zero() {
    let mut counting = EvalCountingExpression::<2>::try_from("2*x+3*y^2").unwrap();
    assert_eq!(counting.count(), 0);
    assert_eq!(counting.last_mod(), 0);
    assert_eq!(counting.print_and_reset_count(), None);
    assert_eq!(counting.count(), 0);
}

#[test]
fn construction_fails_as_for_the_expression() {
    assert_eq!(
        EvalCountingExpression::<1>::try_from("x)").unwrap_err(),
        ParseError::UnmatchedCloseBracket
    );
    assert_eq!(
        EvalCountingExpression::<1>::try_from("(x").unwrap_err(),
        ParseError::UnclosedBracket
    );
    assert_eq!(
        EvalCountingExpression::<1>::try_from("x+y").unwrap_err(),
        ParseError::SymbolCount { expected: 1, found: 2 }
    );
}

#[test]
fn evaluations_are_counted_modulus_by_modulus() {
    let mut counting = EvalCountingExpression::<2>::try_from("2*x+3*y^2").unwrap();
    for n in 1..=5 {
        let (report, value) = counting.try_eval(&at::<P, 2>([5, 2]));
        assert_eq!(report, None);
        assert_eq!(value, Some(FieldElement::new(22)));
        assert_eq!(counting.count(), n);
        assert_eq!(counting.last_mod(), P);
    }
    let (report, value) = counting.try_eval(&at::<Q, 2>([5, 2]));
    assert_eq!(report, Some(Probes { modulus: P, count: 5 }));
    assert_eq!(value, Some(FieldElement::new(22)));
    assert_eq!(counting.count(), 1);
    assert_eq!(counting.last_mod(), Q);
}

#[test]
fn the_first_evaluation_reports_nothing() {
    let mut counting = EvalCountingExpression::<1>::try_from("x+1").unwrap();
    let (report, value) = counting.try_eval(&at::<P, 1>([1]));
    assert_eq!(report, None);
    assert_eq!(value, Some(FieldElement::new(2)));
    assert_eq!(counting.count(), 1);
}

#[test]
fn an_evaluation_without_value_is_counted() {
    let mut counting = EvalCountingExpression::<2>::try_from("a/b").unwrap();
    assert_eq!(counting.try_eval(&at::<P, 2>([1, 0])), (None, None));
    assert_eq!(counting.count(), 1);
    assert_eq!(
        counting.try_eval(&at::<P, 2>([1, 1])),
        (None, Some(FieldElement::new(1)))
    );
    assert_eq!(counting.count(), 2);
    assert_eq!(
        counting.evaluate(&at::<Q, 2>([1, 0])),
        (Some(Probes { modulus: P, count: 2 }), Ok(None))
    );
    assert_eq!(counting.count(), 1);
}

#[test]
fn the_count_is_reset_on_demand() {
    let mut counting = EvalCountingExpression::<1>::try_from("x*x").unwrap();
    for _ in 0..3 {
        counting.try_eval(&at::<P, 1>([4]));
    }
    assert_eq!(
        counting.print_and_reset_count(),
        Some(Probes { modulus: P, count: 3 })
    );
    assert_eq!(counting.count(), 0);
    assert_eq!(counting.last_mod(), P);
    assert_eq!(counting.print_and_reset_count(), None);
    // the modulus has not changed: nothing to report, and the count goes on from 0
    let (report, _) = counting.try_eval(&at::<P, 1>([4]));
    assert_eq!(report, None);
    assert_eq!(counting.count(), 1);
    // after a reset a change of modulus reports nothing
    counting.print_and_reset_count();
    let (report, _) = counting.try_eval(&at::<Q, 1>([4]));
    assert_eq!(report, None);
    assert_eq!(counting.count(), 1);
}

#[test]
fn going_back_to_a_modulus_starts_a_new_count() {
    let mut counting = EvalCountingExpression::<1>::try_from("x").unwrap();
    counting.try_eval(&at::<P, 1>([1]));
    counting.try_eval(&at::<P, 1>([1]));
    assert_eq!(
        counting.try_eval(&at::<Q, 1>([1])).0,
        Some(Probes { modulus: P, count: 2 })
    );
    assert_eq!(
        counting.try_eval(&at::<P, 1>([1])).0,
        Some(Probes { modulus: Q, count: 1 })
    );
    assert_eq!(counting.count(), 1);
    assert_eq!(counting.last_mod(), P);
}

#[test]
fn a_defect_is_counted_and_told() {
    let mut counting = EvalCountingExpression::<0>::try_from("1 2").unwrap();
    assert!(!counting.expression().is_well_formed());
    assert_eq!(
        counting.evaluate::<P>(&[]),
        (None, Err(Defect::StackDepth(2)))
    );
    assert_eq!(counting.count(), 1);
}

#[test]
fn a_copy_counts_on_its_own() {
    let mut counting = EvalCountingExpression::<1>::try_from("x").unwrap();
    counting.try_eval(&at::<P, 1>([1]));
    let mut copy = counting.clone();
    assert_eq!(copy, counting);
    copy.try_eval(&at::<P, 1>([1]));
    assert_eq!(copy.count(), 2);
    assert_eq!(counting.count(), 1);
    assert_eq!(copy.expression(), counting.expression());
}
