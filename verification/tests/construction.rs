use field_expr::Operator::{Divided, LeftBracket, Minus, Plus, Power, Times};
use field_expr::{Atom, Expression, Natural, Operator, ParseError, Parser, Symbol};

fn number(text: &str) -> Atom {
    Atom::Number(Natural::from_decimal(text.as_bytes()).unwrap())
}

fn symbol(name: &str) -> Atom {
    Atom::Symbol(Symbol::new(name))
}

fn op(operator: Operator) -> Atom {
    Atom::Operator(operator)
}

fn postfix<const N: usize>(source: &str) -> Vec<Atom> {
    Expression::<N>::try_from(source).unwrap().atoms().clone()
}

#[test]
fn postfix_of_a_sum_of_products() {
    let expression = Expression::<2>::try_from("2*x+3*y^2").unwrap();
    let expected = vec![
        number("2"),
        symbol("x"),
        op(Operator::Times),
        number("3"),
        symbol("y"),
        number("2"),
        op(Operator::Power),
        op(Operator::Times),
        op(Operator::Plus),
    ];
    assert_eq!(expression.atoms(), &expected);
    assert_eq!(expression.symbols(), &vec![Symbol::new("x"), Symbol::new("y")]);
}

#[test]
fn precedence_of_the_operators() {
    assert_eq!(Plus.precedence(), 10);
    assert_eq!(Minus.precedence(), 10);
    assert_eq!(Times.precedence(), 20);
    assert_eq!(Divided.precedence(), 20);
    assert_eq!(Power.precedence(), 30);
    assert_eq!(LeftBracket.precedence(), 0);
}

#[test]
fn operators_of_one_strength_go_left_to_right() {
    assert_eq!(
        postfix::<0>("10-4-3"),
        vec![number("10"), number("4"), op(Minus), number("3"), op(Minus)]
    );
    assert_eq!(
        postfix::<0>("100/7/2"),
        vec![number("100"), number("7"), op(Divided), number("2"), op(Divided)]
    );
    assert_eq!(
        postfix::<0>("8/2*3"),
        vec![number("8"), number("2"), op(Divided), number("3"), op(Times)]
    );
}

#[test]
fn power_goes_left_to_right() {
    assert_eq!(
        postfix::<0>("2^3^2"),
        vec![number("2"), number("3"), op(Power), number("2"), op(Power)]
    );
    assert_eq!(
        postfix::<3>("a^b^c"),
        vec![symbol("a"), symbol("b"), op(Power), symbol("c"), op(Power)]
    );
}

#[test]
fn brackets_override_precedence() {
    assert_eq!(
        postfix::<0>("(1+2)*3"),
        vec![number("1"), number("2"), op(Plus), number("3"), op(Times)]
    );
    assert_eq!(
        postfix::<0>("1+(2*3)"),
        vec![number("1"), number("2"), number("3"), op(Times), op(Plus)]
    );
    assert_eq!(
        postfix::<0>("2^(3^2)"),
        vec![number("2"), number("3"), number("2"), op(Power), op(Power)]
    );
    assert_eq!(postfix::<1>("((x))"), vec![symbol("x")]);
    assert_eq!(
        postfix::<0>("1-(2-(3-4))"),
        vec![
            number("1"),
            number("2"),
            number("3"),
            number("4"),
            op(Minus),
            op(Minus),
            op(Minus)
        ]
    );
}

#[test]
fn no_bracket_stands_in_a_program() {
    for source in ["(1)", "((1+2)*(3+4))", "(x)+(y)", "-(x)"] {
        let expression = Expression::<2>::try_from(source);
        if let Ok(expression) = expression {
            assert!(!expression.atoms().contains(&op(Operator::LeftBracket)));
        }
    }
    assert!(!postfix::<0>("((1+2)*(3+4))").contains(&op(Operator::LeftBracket)));
}

#[test]
fn white_space_between_tokens_is_skipped() {
    let expected = vec![number("2"), symbol("x"), op(Times), number("3"), op(Plus)];
    assert_eq!(postfix::<1>("2*x+3"), expected);
    assert_eq!(postfix::<1>("  2 * x + 3  "), expected);
    assert_eq!(postfix::<1>("\t2\n*\rx\x0b+\x0c3\n"), expected);
    assert_eq!(postfix::<0>(""), Vec::<Atom>::new());
    assert_eq!(postfix::<0>("   "), Vec::<Atom>::new());
}

#[test]
fn white_space_parts_tokens() {
    assert_eq!(postfix::<0>("1 2"), vec![number("1"), number("2")]);
    assert_eq!(postfix::<0>("12"), vec![number("12")]);
    assert_eq!(postfix::<2>("a b"), vec![symbol("a"), symbol("b")]);
    assert_eq!(postfix::<1>("ab"), vec![symbol("ab")]);
    assert_eq!(postfix::<1>("2x"), vec![number("2"), symbol("x")]);
    assert_eq!(postfix::<1>("x2"), vec![symbol("x2")]);
    assert_eq!(postfix::<1>("x+1"), vec![symbol("x"), number("1"), op(Plus)]);
}

#[test]
fn names_hold_letters_digits_and_underscores() {
    assert_eq!(postfix::<1>("x_1"), vec![symbol("x_1")]);
    assert_eq!(postfix::<1>("Zeta_0_b"), vec![symbol("Zeta_0_b")]);
    assert_eq!(
        postfix::<2>("s12*t_"),
        vec![symbol("s12"), symbol("t_"), op(Operator::Times)]
    );
}

#[test]
fn a_name_does_not_start_with_an_underscore() {
    assert_eq!(
        Expression::<1>::try_from("_x").unwrap_err(),
        ParseError::UnexpectedToken(b'_', 0)
    );
}

#[test]
fn numbers_of_any_size() {
    assert_eq!(
        postfix::<0>("123456789012345678901234567890"),
        vec![number("123456789012345678901234567890")]
    );
    assert_eq!(postfix::<0>("007"), vec![number("7")]);
}

#[test]
fn symbols_come_in_the_order_of_names() {
    let expression = Expression::<3>::try_from("z*a+m*z+a").unwrap();
    assert_eq!(
        expression.symbols(),
        &vec![Symbol::new("a"), Symbol::new("m"), Symbol::new("z")]
    );
    let expression = Expression::<4>::try_from("x2+x10+x1+X").unwrap();
    assert_eq!(
        expression.symbols(),
        &vec![Symbol::new("X"), Symbol::new("x1"), Symbol::new("x10"), Symbol::new("x2")]
    );
    let expression = Expression::<3>::try_from("ab+a+abc+ab").unwrap();
    assert_eq!(
        expression.symbols(),
        &vec![Symbol::new("a"), Symbol::new("ab"), Symbol::new("abc")]
    );
}

#[test]
fn the_order_of_symbols_does_not_depend_on_their_first_use() {
    let one = Expression::<2>::try_from("x+y").unwrap();
    let other = Expression::<2>::try_from("y+x").unwrap();
    assert_eq!(one.symbols(), other.symbols());
    assert_eq!(one.symbols(), &vec![Symbol::new("x"), Symbol::new("y")]);
}

#[test]
fn unmatched_closing_bracket() {
    for source in [")", "x)", "1+2)", "(1))", "x+y)*(z", ") ("] {
        assert_eq!(
            Expression::<1>::try_from(source).unwrap_err(),
            ParseError::UnmatchedCloseBracket,
            "{source}"
        );
    }
}

#[test]
fn unclosed_opening_bracket() {
    for source in ["(", "(x", "x+(", "((x)", "(x+(y*z)", "1+(2*3"] {
        assert_eq!(
            Expression::<1>::try_from(source).unwrap_err(),
            ParseError::UnclosedBracket,
            "{source}"
        );
    }
}

#[test]
fn unexpected_character() {
    assert_eq!(
        Expression::<2>::try_from("x $ y").unwrap_err(),
        ParseError::UnexpectedToken(b'$', 2)
    );
    assert_eq!(
        Expression::<1>::try_from("x=1").unwrap_err(),
        ParseError::UnexpectedToken(b'=', 1)
    );
    assert_eq!(
        Expression::<0>::try_from("1.5").unwrap_err(),
        ParseError::UnexpectedToken(b'.', 1)
    );
    assert_eq!(
        Expression::<0>::try_from("  2 * [3]").unwrap_err(),
        ParseError::UnexpectedToken(b'[', 6)
    );
}

#[test]
fn a_character_beyond_ascii_is_unexpected() {
    assert_eq!(
        Expression::<1>::try_from("é").unwrap_err(),
        ParseError::UnexpectedToken("é".as_bytes()[0], 0)
    );
    assert_eq!(
        Expression::<1>::try_from("x\u{a0}+ 1").unwrap_err(),
        ParseError::UnexpectedToken(0xc2, 1)
    );
}

#[test]
fn the_first_error_of_the_text_is_given() {
    assert_eq!(
        Expression::<1>::try_from(") $").unwrap_err(),
        ParseError::UnmatchedCloseBracket
    );
    assert_eq!(
        Expression::<1>::try_from("$ )").unwrap_err(),
        ParseError::UnexpectedToken(b'$', 0)
    );
    assert_eq!(
        Expression::<1>::try_from("( $").unwrap_err(),
        ParseError::UnexpectedToken(b'$', 2)
    );
    assert_eq!(
        Expression::<5>::try_from("(x").unwrap_err(),
        ParseError::UnclosedBracket
    );
}

#[test]
fn wrong_number_of_symbols() {
    assert_eq!(
        Expression::<2>::try_from("x").unwrap_err(),
        ParseError::SymbolCount { expected: 2, found: 1 }
    );
    assert_eq!(
        Expression::<1>::try_from("x+y").unwrap_err(),
        ParseError::SymbolCount { expected: 1, found: 2 }
    );
    assert_eq!(
        Expression::<0>::try_from("x*x").unwrap_err(),
        ParseError::SymbolCount { expected: 0, found: 1 }
    );
    assert_eq!(
        Expression::<4>::try_from("1+2").unwrap_err(),
        ParseError::SymbolCount { expected: 4, found: 0 }
    );
    assert!(Expression::<1>::try_from("x*x+x").is_ok());
}

#[test]
fn atoms_from_their_parts() {
    assert_eq!(Atom::from(Operator::Plus), op(Operator::Plus));
    assert_eq!(Atom::from(Symbol::new("x")), symbol("x"));
    assert_eq!(
        Atom::from(Natural::from_decimal(b"12").unwrap()),
        number("12")
    );
    let atom: Atom = Operator::Power.into();
    assert_eq!(atom, op(Operator::Power));
}

#[test]
fn symbols_by_name() {
    let x = Symbol::new("x");
    assert_eq!(x.name(), &b"x".to_vec());
    assert_eq!(Symbol::from_bytes(b"x"), x);
    assert!(x.same_as(&Symbol::new("x")));
    assert!(!x.same_as(&Symbol::new("y")));
    assert!(!x.same_as(&Symbol::new("xx")));
    assert!(x.precedes(&Symbol::new("y")));
    assert!(!Symbol::new("y").precedes(&x));
    assert!(!x.precedes(&x));
    assert!(x.precedes(&Symbol::new("xa")));
    assert!(!Symbol::new("xa").precedes(&x));
    assert!(Symbol::new("").precedes(&x));
    assert!(Symbol::new("B").precedes(&Symbol::new("a")));
    assert!(Symbol::new("x10").precedes(&Symbol::new("x2")));
    assert_eq!(x.clone(), x);
}

#[test]
fn the_parser_step_by_step() {
    let mut parser = Parser::new();
    assert_eq!(parser.last_op_precedence(), 0);
    parser.push_op(Plus);
    assert_eq!(parser.last_op_precedence(), 10);
    parser.push_op(Times);
    assert_eq!(parser.last_op_precedence(), 20);
    parser.push_op(Power);
    assert_eq!(parser.last_op_precedence(), 30);
    // an operator of the strength of `*` takes `^` and `*` off the stack
    parser.push_op(Divided);
    assert_eq!(parser.last_op_precedence(), 20);
    let expression = Expression::<0>::from_parser(parser).unwrap();
    assert_eq!(
        expression.atoms(),
        &vec![op(Power), op(Times), op(Divided), op(Plus)]
    );
}

#[test]
fn the_parser_reads_a_text_in_parts() {
    let mut parser = Parser::default();
    assert_eq!(parser.parse("(x +"), Ok(()));
    assert_eq!(parser.last_op_precedence(), 10);
    assert_eq!(parser.parse("y) * 2"), Ok(()));
    let expression = Expression::<2>::from_parser(parser).unwrap();
    assert_eq!(
        expression.atoms(),
        &vec![symbol("x"), symbol("y"), op(Plus), number("2"), op(Times)]
    );
}

#[test]
fn a_closing_bracket_takes_the_operators_above_the_bracket() {
    let mut parser = Parser::new();
    assert_eq!(parser.parse("1 + ( 2 * 3 ^ 4"), Ok(()));
    assert_eq!(parser.last_op_precedence(), 30);
    assert_eq!(parser.close_bracket(), Ok(()));
    assert_eq!(parser.last_op_precedence(), 10);
    assert_eq!(
        parser.close_bracket(),
        Err(ParseError::UnmatchedCloseBracket)
    );
    // the closing bracket that failed has moved the waiting `+` to the program
    assert_eq!(parser.last_op_precedence(), 0);
    let expression = Expression::<0>::from_parser(parser).unwrap();
    assert_eq!(
        expression.atoms(),
        &vec![
            number("1"),
            number("2"),
            number("3"),
            number("4"),
            op(Power),
            op(Times),
            op(Plus)
        ]
    );
}

#[test]
fn a_copy_is_the_same_expression() {
    let expression = Expression::<2>::try_from("2*x+3*y^2").unwrap();
    let copy = expression.clone();
    assert_eq!(copy, expression);
    assert_eq!(copy.atoms(), expression.atoms());
    assert_eq!(copy.symbols(), expression.symbols());
}
