use field_expr::{Defect, Expression, FieldElement, Operator, Parser};

const P: u64 = 1_000_000_007;

fn at<const Q: u64, const N: usize>(values: [u64; N]) -> [FieldElement<Q>; N] {
    values.map(FieldElement::<Q>::new)
}

fn value<const Q: u64, const N: usize>(source: &str, point: [u64; N]) -> Option<u64> {
    let expression = Expression::<N>::try_from(source).unwrap();
    assert!(expression.is_well_formed(), "{source}");
    let point = at::<Q, N>(point);
    let value = expression.try_eval(&point);
    assert_eq!(expression.evaluate(&point), Ok(value));
    value.map(|value| value.value())
}

#[test]
fn value_of_a_sum_of_products() {
    let expression = Expression::<2>::try_from("2*x+3*y^2").unwrap();
    let point = [FieldElement::<P>::new(5), FieldElement::<P>::new(2)];
    assert_eq!(expression.try_eval(&point), Some(FieldElement::<P>::new(22)));
    assert_eq!(expression.evaluate(&point), Ok(Some(FieldElement::<P>::new(22))));
    assert_eq!(value::<7, 2>("2*x+3*y^2", [5, 2]), Some(1));
    assert_eq!(value::<23, 2>("2*x+3*y^2", [5, 2]), Some(22));
}

#[test]
fn division_by_zero_gives_no_value() {
    assert_eq!(value::<P, 2>("a/b", [5, 0]), None);
    assert_eq!(value::<P, 2>("a/b", [0, 0]), None);
    assert_eq!(value::<2, 2>("a/b", [1, 0]), None);
    assert_eq!(value::<P, 1>("1/(x-x)", [17]), None);
    assert_eq!(value::<P, 1>("1/(x-3)+x", [3]), None);
}

#[test]
fn division_by_a_divisor_of_zero_gives_no_value() {
    assert_eq!(value::<6, 2>("a/b", [1, 2]), None);
    assert_eq!(value::<6, 2>("a/b", [1, 3]), None);
    assert_eq!(value::<6, 2>("a/b", [1, 4]), None);
    assert_eq!(value::<6, 2>("a/b", [1, 5]), Some(5));
    assert_eq!(value::<6, 2>("a/b", [4, 5]), Some(2));
}

#[test]
fn division_multiplies_by_the_inverse() {
    assert_eq!(value::<P, 2>("a/b", [1, 3]), Some(333_333_336));
    assert_eq!(value::<P, 2>("a/b", [6, 3]), Some(2));
    assert_eq!(value::<P, 0>("1/3+1/6", []), Some(500_000_004));
    assert_eq!(value::<101, 0>("100/7/2", []), Some(36));
    assert_eq!(value::<101, 0>("100/(7/2)", []), Some(43));
}

#[test]
fn a_division_that_fails_ends_the_run() {
    // what stands behind the division is not looked at
    assert_eq!(value::<P, 1>("1/x + 2*x^3", [0]), None);
    let mut parser = Parser::new();
    assert_eq!(parser.parse("1 0"), Ok(()));
    parser.push_op(Operator::Divided);
    parser.push_op(Operator::Times);
    let program = Expression::<0>::from_parser(parser).unwrap();
    assert!(!program.is_well_formed());
    assert_eq!(program.evaluate::<P>(&[]), Ok(None));
    assert_eq!(program.try_eval::<P>(&[]), None);
}

#[test]
fn a_leading_sign_takes_zero_for_its_left_operand() {
    assert_eq!(value::<101, 1>("-x", [5]), Some(96));
    assert_eq!(value::<101, 1>("0-x", [5]), Some(96));
    assert_eq!(value::<101, 1>("+x", [5]), Some(5));
    assert_eq!(value::<101, 1>("0+x", [5]), Some(5));
    assert_eq!(value::<101, 1>("-x^2", [5]), Some(76));
    assert_eq!(value::<101, 1>("0-x^2", [5]), Some(76));
    assert_eq!(value::<101, 2>("-x*y+3", [5, 7]), value::<101, 2>("0-x*y+3", [5, 7]));
    assert_eq!(value::<101, 2>("-x-y", [5, 7]), Some(89));
    assert_eq!(value::<101, 1>("(-x)*2", [5]), Some(91));
    assert_eq!(value::<101, 0>("-0", []), Some(0));
    assert_eq!(value::<101, 0>("- 1", []), Some(100));
}

#[test]
fn power_takes_the_representative_of_the_exponent() {
    assert_eq!(value::<101, 0>("2^3^2", []), Some(64));
    assert_eq!(value::<101, 0>("2^(3^2)", []), Some(7));
    assert_eq!(value::<P, 2>("x^y", [3, 200]), Some(136_318_165));
    assert_eq!(value::<P, 2>("x^y", [0, 0]), Some(1));
    // the exponent 102 is 1 modulo 101
    assert_eq!(value::<101, 1>("x^102", [7]), Some(7));
    // the exponent 0 - 1 is 100, not -1: the power is no inverse
    assert_eq!(value::<101, 1>("x^(0-1)", [7]), Some(1));
    assert_eq!(value::<101, 1>("1/x", [7]), Some(29));
}

#[test]
fn the_usual_precedence() {
    assert_eq!(value::<101, 0>("2+3*4", []), Some(14));
    assert_eq!(value::<101, 0>("(2+3)*4", []), Some(20));
    assert_eq!(value::<101, 0>("2*3+4*5", []), Some(26));
    assert_eq!(value::<101, 0>("10-4-3", []), Some(3));
    assert_eq!(value::<101, 0>("10-(4-3)", []), Some(9));
    assert_eq!(value::<101, 0>("2*3^2", []), Some(18));
    assert_eq!(value::<101, 0>("2+3*4^2/8-1", []), Some(7));
    assert_eq!(value::<101, 5>("(a+b)*(c-d)/e^2", [1, 2, 3, 5, 4]), Some(88));
}

#[test]
fn numbers_are_reduced_modulo_the_modulus() {
    assert_eq!(value::<P, 0>("1000000007", []), Some(0));
    assert_eq!(value::<P, 0>("123456789012345678901234567890", []), Some(197_434_842));
    assert_eq!(value::<7, 1>("22*x", [1]), Some(1));
    assert_eq!(value::<1, 1>("22*x+5", [0]), Some(0));
}

#[test]
fn symbols_stand_for_the_coordinates_in_the_order_of_names() {
    assert_eq!(value::<101, 2>("x-y", [10, 3]), Some(7));
    assert_eq!(value::<101, 2>("y-x", [10, 3]), Some(94));
    assert_eq!(value::<101, 3>("c*100+a*10+b", [1, 2, 3]), Some((300 + 10 + 2) % 101));
    assert_eq!(value::<101, 2>("x_1*y2", [11, 13]), Some(42));
}

#[test]
fn the_same_point_gives_the_same_value() {
    let expression = Expression::<2>::try_from("(x^3-2*y)/(x+y)").unwrap();
    for (x, y) in [(1, 2), (5, 0), (7, P - 7), (123_456, 654_321)] {
        let point = at::<P, 2>([x, y]);
        let first = expression.evaluate(&point);
        let second = expression.evaluate(&point);
        assert_eq!(first, second);
        assert_eq!(expression.try_eval(&point), first.unwrap());
    }
    let again = Expression::<2>::try_from("(x^3-2*y)/(x+y)").unwrap();
    let point = at::<P, 2>([3, 4]);
    assert_eq!(again.evaluate(&point), expression.evaluate(&point));
    assert_eq!(expression.try_eval(&at::<P, 2>([7, P - 7])), None);
}

#[test]
fn one_expression_under_several_moduli() {
    let expression = Expression::<1>::try_from("x^2+1").unwrap();
    assert_eq!(expression.try_eval(&at::<5, 1>([2])).unwrap().value(), 0);
    assert_eq!(expression.try_eval(&at::<7, 1>([2])).unwrap().value(), 5);
    assert_eq!(expression.try_eval(&at::<P, 1>([2])).unwrap().value(), 5);
}

#[test]
fn an_operator_without_operands_is_a_defect() {
    for (source, operator) in [
        ("*", Operator::Times),
        ("/", Operator::Divided),
        ("^", Operator::Power),
        ("+", Operator::Plus),
        ("-", Operator::Minus),
    ] {
        let program = Expression::<0>::try_from(source).unwrap();
        assert!(!program.is_well_formed());
        assert_eq!(program.evaluate::<P>(&[]), Err(Defect::MissingOperand(operator)));
    }
}

#[test]
fn an_operator_with_one_operand_is_a_defect_unless_it_is_a_sign() {
    for (source, operator) in [
        ("*3", Operator::Times),
        ("3/", Operator::Divided),
        ("^3", Operator::Power),
    ] {
        let program = Expression::<0>::try_from(source).unwrap();
        assert!(!program.is_well_formed());
        assert_eq!(program.evaluate::<P>(&[]), Err(Defect::MissingOperand(operator)));
    }
    let program = Expression::<0>::try_from("3-").unwrap();
    assert!(program.is_well_formed());
    assert_eq!(program.evaluate::<P>(&[]), Ok(Some(FieldElement::new(P - 3))));
}

#[test]
fn values_left_over_are_a_defect() {
    let program = Expression::<0>::try_from("1 2").unwrap();
    assert!(!program.is_well_formed());
    assert_eq!(program.evaluate::<P>(&[]), Err(Defect::StackDepth(2)));
    let program = Expression::<2>::try_from("x y 3").unwrap();
    assert_eq!(program.evaluate(&at::<P, 2>([1, 2])), Err(Defect::StackDepth(3)));
    let program = Expression::<0>::try_from("").unwrap();
    assert!(!program.is_well_formed());
    assert_eq!(program.evaluate::<P>(&[]), Err(Defect::StackDepth(0)));
    let program = Expression::<0>::try_from("()").unwrap();
    assert_eq!(program.evaluate::<P>(&[]), Err(Defect::StackDepth(0)));
}

#[test]
fn a_sign_in_the_middle_is_no_leading_sign() {
    // `y * - x` is read as `y - x`, and `*` then lacks an operand
    let program = Expression::<2>::try_from("y*-x").unwrap();
    assert!(!program.is_well_formed());
    assert_eq!(
        program.evaluate(&at::<P, 2>([1, 2])),
        Err(Defect::MissingOperand(Operator::Times))
    );
}

#[test]
fn a_constant_needs_no_point() {
    let expression = Expression::<0>::try_from("(1+2)*3").unwrap();
    assert!(expression.symbols().is_empty());
    assert_eq!(expression.try_eval::<P>(&[]), Some(FieldElement::new(9)));
}
