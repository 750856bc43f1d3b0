use flt::ast::{BinaryOperator, Expression, Number, UnaryOperator};
use flt::parser::parse_expr;
use flt::Error;

fn num(int_digits: &[u8], frac_digits: &[u8]) -> Expression {
    Expression::NumberLiteral(Number::new(int_digits.to_vec(), frac_digits.to_vec()))
}

fn bin(op: BinaryOperator, left: Expression, right: Expression) -> Expression {
    Expression::BinaryOp(op, Box::new(left), Box::new(right))
}

fn neg(operand: Expression) -> Expression {
    Expression::UnaryOp(UnaryOperator::Negate, Box::new(operand))
}

fn grp(inner: Expression) -> Expression {
    Expression::Grouped(Box::new(inner))
}

fn parse_ok(input: &str) -> (String, Expression) {
    let (rest, tree) = parse_expr(input).expect("expected a successful parse");
    (rest.to_string(), tree)
}

#[test]
fn literal_integer() {
    let (rest, tree) = parse_ok("42");
    assert_eq!(rest, "");
    assert_eq!(tree, num(&[4, 2], &[]));
}

#[test]
fn literal_fraction() {
    let (rest, tree) = parse_ok("3.14");
    assert_eq!(rest, "");
    assert_eq!(tree, num(&[3], &[1, 4]));
}

#[test]
fn literal_leading_zeros_are_canonicalized() {
    let (rest, tree) = parse_ok("007");
    assert_eq!(rest, "");
    assert_eq!(
        tree,
        Expression::NumberLiteral(Number { int_digits: vec![7], frac_digits: vec![] })
    );
}

#[test]
fn literal_trailing_fraction_zeros_are_canonicalized() {
    let (_, a) = parse_ok("2.50");
    let (_, b) = parse_ok("2.5");
    assert_eq!(a, b);
    assert_eq!(a, num(&[2], &[5]));
}

#[test]
fn literal_zero_forms_are_equal() {
    let (_, a) = parse_ok("0");
    let (_, b) = parse_ok("0.0");
    let (_, c) = parse_ok("0.");
    assert_eq!(a, b);
    assert_eq!(b, c);
    assert_eq!(
        a,
        Expression::NumberLiteral(Number { int_digits: vec![], frac_digits: vec![] })
    );
}

#[test]
fn literal_dot_on_either_side() {
    let (rest, tree) = parse_ok("5.");
    assert_eq!(rest, "");
    assert_eq!(tree, num(&[5], &[]));
    let (rest, tree) = parse_ok(".5");
    assert_eq!(rest, "");
    assert_eq!(tree, num(&[], &[5]));
}

#[test]
fn precedence_multiplication_binds_tighter() {
    let (rest, tree) = parse_ok("1 + 2 * 3");
    assert_eq!(rest, "");
    assert_eq!(
        tree,
        bin(
            BinaryOperator::Add,
            num(&[1], &[]),
            bin(BinaryOperator::Multiply, num(&[2], &[]), num(&[3], &[])),
        )
    );
}

#[test]
fn subtraction_is_left_associative() {
    let (rest, tree) = parse_ok("8 - 3 - 2");
    assert_eq!(rest, "");
    assert_eq!(
        tree,
        bin(
            BinaryOperator::Subtract,
            bin(BinaryOperator::Subtract, num(&[8], &[]), num(&[3], &[])),
            num(&[2], &[]),
        )
    );
}

#[test]
fn division_is_left_associative() {
    let (rest, tree) = parse_ok("1 / 2 / 4");
    assert_eq!(rest, "");
    assert_eq!(
        tree,
        bin(
            BinaryOperator::Divide,
            bin(BinaryOperator::Divide, num(&[1], &[]), num(&[2], &[])),
            num(&[4], &[]),
        )
    );
}

#[test]
fn grouping_overrides_precedence() {
    let (rest, tree) = parse_ok("(1 + 2) * 3");
    assert_eq!(rest, "");
    assert_eq!(
        tree,
        bin(
            BinaryOperator::Multiply,
            grp(bin(BinaryOperator::Add, num(&[1], &[]), num(&[2], &[]))),
            num(&[3], &[]),
        )
    );
}

#[test]
fn unary_negation_is_right_associative() {
    let (rest, tree) = parse_ok("--3");
    assert_eq!(rest, "");
    assert_eq!(tree, neg(neg(num(&[3], &[]))));
}

#[test]
fn unary_negation_inside_binary() {
    let (rest, tree) = parse_ok("2 * -3");
    assert_eq!(rest, "");
    assert_eq!(
        tree,
        bin(BinaryOperator::Multiply, num(&[2], &[]), neg(num(&[3], &[])))
    );
}

#[test]
fn nested_groups_are_kept() {
    let (rest, tree) = parse_ok("((7))");
    assert_eq!(rest, "");
    assert_eq!(tree, grp(grp(num(&[7], &[]))));
}

#[test]
fn remainder_after_expression() {
    let (rest, tree) = parse_ok("1 + 2 extra");
    assert_eq!(rest, "extra");
    assert_eq!(
        tree,
        bin(BinaryOperator::Add, num(&[1], &[]), num(&[2], &[]))
    );
}

#[test]
fn remainder_after_second_dot() {
    let (rest, tree) = parse_ok("1.2.3");
    assert_eq!(rest, ".3");
    assert_eq!(tree, num(&[1], &[2]));
}

#[test]
fn unclosed_group_fails() {
    assert_eq!(parse_expr("(1 + 2"), Err(Error::UnclosedGroup(6)));
}

#[test]
fn missing_operand_fails_with_unexpected_end() {
    assert_eq!(parse_expr("1 +"), Err(Error::UnexpectedEnd(3)));
}

#[test]
fn bare_dot_fails_with_invalid_number() {
    assert_eq!(parse_expr("."), Err(Error::InvalidNumber(0)));
}

#[test]
fn unknown_character_fails_with_unexpected_token() {
    assert_eq!(parse_expr("1 & 2"), Err(Error::UnexpectedToken(2)));
}

#[test]
fn empty_input_fails_with_unexpected_end() {
    assert_eq!(parse_expr(""), Err(Error::UnexpectedEnd(0)));
    assert_eq!(parse_expr("   "), Err(Error::UnexpectedEnd(3)));
}

#[test]
fn open_paren_at_end_fails_with_unexpected_end() {
    assert_eq!(parse_expr("("), Err(Error::UnexpectedEnd(1)));
}

#[test]
fn bad_operand_reports_its_offset() {
    assert_eq!(parse_expr("1 + @"), Err(Error::UnexpectedToken(4)));
}

#[test]
fn error_offset_accessor() {
    let err = parse_expr("1 & 2").unwrap_err();
    assert_eq!(err.offset(), 2);
    let err = parse_expr("(1 + 2").unwrap_err();
    assert_eq!(err.offset(), 6);
}

#[test]
fn parsing_twice_gives_equal_trees() {
    let (rest1, tree1) = parse_ok("2 * (3 + 4) / -5");
    let (rest2, tree2) = parse_ok("2 * (3 + 4) / -5");
    assert_eq!(rest1, rest2);
    assert_eq!(tree1, tree2);
}

#[test]
fn whitespace_between_tokens_is_insignificant() {
    let (rest1, tree1) = parse_ok("1+2");
    let (rest2, tree2) = parse_ok(" 1 + 2 ");
    assert_eq!(tree1, tree2);
    assert_eq!(rest1, "");
    assert_eq!(rest2, "");
}

#[test]
fn trailing_whitespace_is_consumed() {
    let (rest, tree) = parse_ok("1 + 2   ");
    assert_eq!(rest, "");
    assert_eq!(
        tree,
        bin(BinaryOperator::Add, num(&[1], &[]), num(&[2], &[]))
    );
}

#[test]
fn whitespace_splits_a_literal() {
    let (rest, tree) = parse_ok("1 2");
    assert_eq!(rest, "2");
    assert_eq!(tree, num(&[1], &[]));
}

#[test]
fn debug_rendering_distinguishes_grouping() {
    let (_, grouped) = parse_ok("(1)");
    let (_, plain) = parse_ok("1");
    let grouped_text = format!("{:?}", grouped);
    let plain_text = format!("{:?}", plain);
    assert!(grouped_text.contains("Grouped"));
    assert_ne!(grouped_text, plain_text);
}

#[test]
fn number_constructor_canonicalizes() {
    let n = Number::new(vec![0, 0, 7], vec![5, 0]);
    assert_eq!(n, Number { int_digits: vec![7], frac_digits: vec![5] });
    let z = Number::new(vec![0], vec![0, 0]);
    assert_eq!(z, Number { int_digits: vec![], frac_digits: vec![] });
}
