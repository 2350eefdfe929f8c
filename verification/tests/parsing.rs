use std::str::FromStr;

use calculator::{BinaryOperationExpr, BinaryOperator, Expression, ParseError};

fn number(text: &str) -> Expression {
    Expression::Number(text.as_bytes().to_vec())
}

fn binary(operator: BinaryOperator, left: Expression, right: Expression) -> Expression {
    Expression::BinaryOperation(BinaryOperationExpr {
        operator,
        left: Box::new(left),
        right: Box::new(right),
    })
}

fn negation(operand: Expression) -> Expression {
    Expression::UnaryNegation(Box::new(operand))
}

fn parenthesis(inner: Expression) -> Expression {
    Expression::Parenthesis(Box::new(inner))
}

/// The value of a tree in double precision.
fn value(expression: &Expression) -> f64 {
    match expression {
        Expression::BinaryOperation(operation) => {
            let left = value(&operation.left);
            let right = value(&operation.right);
            match operation.operator {
                BinaryOperator::Addition => left + right,
                BinaryOperator::Subtraction => left - right,
                BinaryOperator::Multiplication => left * right,
                BinaryOperator::Division => left / right,
                BinaryOperator::Exponentiation => left.powf(right),
            }
        }
        Expression::UnaryNegation(operand) => -value(operand),
        Expression::Parenthesis(inner) => value(inner),
        Expression::Number(text) => std::str::from_utf8(text).unwrap().parse().unwrap(),
    }
}

fn parsed(text: &str) -> Expression {
    Expression::from_str(text).unwrap()
}

#[test]
fn an_integer_literal_is_a_number() {
    assert_eq!(Expression::from_str("42"), Ok(number("42")));
    assert_eq!(value(&parsed("42")), 42.0);
}

#[test]
fn a_negative_literal_is_a_negated_number() {
    assert_eq!(Expression::from_str("-3.5"), Ok(negation(number("3.5"))));
    assert_eq!(value(&parsed("-3.5")), -3.5);
}

#[test]
fn a_literal_with_an_exponent_is_a_number() {
    assert_eq!(Expression::from_str("1e3"), Ok(number("1e3")));
    assert_eq!(value(&parsed("1e3")), 1000.0);
}

#[test]
fn literals_keep_the_value_of_their_text() {
    for text in ["0", "7", "3.25", ".5", "5.", "1E2", "12.5e1", "123456789", "0.1"] {
        assert_eq!(Expression::from_str(text), Ok(number(text)));
        assert_eq!(value(&parsed(text)), text.parse::<f64>().unwrap());
    }
}

#[test]
fn the_words_for_infinity_and_nan_are_numbers() {
    assert_eq!(Expression::from_str("inf"), Ok(number("inf")));
    assert_eq!(Expression::from_str("Infinity"), Ok(number("Infinity")));
    assert_eq!(Expression::from_str("NaN"), Ok(number("NaN")));
    assert_eq!(Expression::from_str("-inf"), Ok(negation(number("inf"))));
    assert_eq!(value(&parsed("inf")), f64::INFINITY);
    assert_eq!(value(&parsed("-inf")), f64::NEG_INFINITY);
    assert!(value(&parsed("nan")).is_nan());
}

#[test]
fn a_sign_in_an_exponent_is_an_operator() {
    assert_eq!(Expression::from_str("1e-3"), Err(ParseError::NumberFormatError));
    assert_eq!(Expression::from_str("1e+3"), Err(ParseError::NumberFormatError));
}

#[test]
fn a_leading_plus_has_no_left_operand() {
    assert_eq!(Expression::from_str("+5"), Err(ParseError::IndexOutOfRange));
}

#[test]
fn subtraction_associates_to_the_left() {
    let expected = binary(
        BinaryOperator::Subtraction,
        binary(BinaryOperator::Subtraction, number("1"), number("2")),
        number("3"),
    );
    assert_eq!(Expression::from_str("1-2-3"), Ok(expected));
    assert_eq!(value(&parsed("1-2-3")), -4.0);
}

#[test]
fn division_associates_to_the_left() {
    let expected = binary(
        BinaryOperator::Division,
        binary(BinaryOperator::Division, number("8"), number("4")),
        number("2"),
    );
    assert_eq!(Expression::from_str("8/4/2"), Ok(expected));
    assert_eq!(value(&parsed("8/4/2")), 1.0);
}

#[test]
fn power_associates_to_the_left() {
    let expected = binary(
        BinaryOperator::Exponentiation,
        binary(BinaryOperator::Exponentiation, number("2"), number("3")),
        number("2"),
    );
    assert_eq!(Expression::from_str("2^3^2"), Ok(expected));
    assert_eq!(value(&parsed("2^3^2")), 64.0);
}

#[test]
fn multiplication_binds_tighter_than_addition() {
    let expected = binary(
        BinaryOperator::Addition,
        number("2"),
        binary(BinaryOperator::Multiplication, number("3"), number("4")),
    );
    assert_eq!(Expression::from_str("2+3*4"), Ok(expected));
    assert_eq!(value(&parsed("2+3*4")), 14.0);
}

#[test]
fn addition_after_multiplication_is_the_root() {
    let expected = binary(
        BinaryOperator::Addition,
        binary(BinaryOperator::Multiplication, number("2"), number("3")),
        number("4"),
    );
    assert_eq!(Expression::from_str("2*3+4"), Ok(expected));
    assert_eq!(value(&parsed("2*3+4")), 10.0);
}

#[test]
fn negations_nest_from_left_to_right() {
    assert_eq!(Expression::from_str("--5"), Ok(negation(negation(number("5")))));
    assert_eq!(value(&parsed("--5")), 5.0);
    assert_eq!(
        Expression::from_str("---5"),
        Ok(negation(negation(negation(number("5")))))
    );
}

#[test]
fn power_splits_before_a_leading_negation() {
    let expected = binary(
        BinaryOperator::Exponentiation,
        negation(number("5")),
        number("2"),
    );
    assert_eq!(Expression::from_str("-5^2"), Ok(expected));
    assert_eq!(value(&parsed("-5^2")), 25.0);
}

#[test]
fn negation_after_an_operator() {
    let product = binary(
        BinaryOperator::Multiplication,
        number("2"),
        negation(number("3")),
    );
    assert_eq!(Expression::from_str("2*-3"), Ok(product));
    assert_eq!(value(&parsed("2*-3")), -6.0);
    let difference = binary(
        BinaryOperator::Subtraction,
        number("2"),
        negation(number("3")),
    );
    assert_eq!(Expression::from_str("2--3"), Ok(difference));
    assert_eq!(value(&parsed("2--3")), 5.0);
}

#[test]
fn parentheses_override_precedence() {
    let expected = binary(
        BinaryOperator::Multiplication,
        parenthesis(binary(BinaryOperator::Addition, number("2"), number("3"))),
        number("4"),
    );
    assert_eq!(Expression::from_str("(2+3)*4"), Ok(expected));
    assert_eq!(value(&parsed("(2+3)*4")), 20.0);
}

#[test]
fn power_binds_tighter_than_multiplication() {
    let expected = binary(
        BinaryOperator::Multiplication,
        number("2"),
        binary(BinaryOperator::Exponentiation, number("3"), number("2")),
    );
    assert_eq!(Expression::from_str("2*3^2"), Ok(expected));
    assert_eq!(value(&parsed("2*3^2")), 18.0);
}

#[test]
fn nested_parentheses() {
    assert_eq!(
        Expression::from_str("((7))"),
        Ok(parenthesis(parenthesis(number("7"))))
    );
    let expected = binary(
        BinaryOperator::Subtraction,
        number("1"),
        parenthesis(binary(
            BinaryOperator::Subtraction,
            number("2"),
            parenthesis(binary(BinaryOperator::Subtraction, number("3"), number("4"))),
        )),
    );
    assert_eq!(Expression::from_str("1-(2-(3-4))"), Ok(expected));
    assert_eq!(value(&parsed("1-(2-(3-4))")), -2.0);
}

#[test]
fn groups_side_by_side() {
    let expected = binary(
        BinaryOperator::Division,
        parenthesis(binary(BinaryOperator::Addition, number("1"), number("2"))),
        parenthesis(binary(BinaryOperator::Subtraction, number("5"), number("2"))),
    );
    assert_eq!(Expression::from_str("(1+2)/(5-2)"), Ok(expected));
    assert_eq!(value(&parsed("(1+2)/(5-2)")), 1.0);
}

#[test]
fn whitespace_between_tokens_is_ignored() {
    let expected = binary(
        BinaryOperator::Addition,
        number("1"),
        binary(BinaryOperator::Multiplication, number("2"), number("3")),
    );
    assert_eq!(Expression::from_str("  1 +\t2 * 3 \r\n"), Ok(expected));
    assert_eq!(
        Expression::from_str("( 4 )"),
        Ok(parenthesis(number("4")))
    );
    assert_eq!(
        Expression::from_str("2 * \t- 3"),
        Ok(binary(
            BinaryOperator::Multiplication,
            number("2"),
            negation(number("3"))
        ))
    );
}

#[test]
fn a_line_as_read_from_a_terminal() {
    assert_eq!(value(&parsed("6/3\n")), 2.0);
    assert_eq!(value(&parsed("6/3\r\n")), 2.0);
}

#[test]
fn parsing_twice_gives_the_same_tree() {
    for text in ["1-2-3", "2+3*4", "(2+3)*4", "--5", "2*3^2", "1/0", "", "1+"] {
        let first = Expression::from_str(text);
        let second = Expression::from_str(text);
        assert_eq!(first, second);
        if let (Ok(first), Ok(second)) = (first, second) {
            assert_eq!(value(&first).to_bits(), value(&second).to_bits());
        }
    }
}

#[test]
fn empty_text_is_rejected() {
    assert_eq!(Expression::from_str(""), Err(ParseError::IndexOutOfRange));
    assert_eq!(Expression::from_str(" \t\r\n"), Err(ParseError::IndexOutOfRange));
}

#[test]
fn a_missing_operand_is_rejected() {
    assert_eq!(Expression::from_str("1+"), Err(ParseError::IndexOutOfRange));
    assert_eq!(Expression::from_str("*2"), Err(ParseError::IndexOutOfRange));
    assert_eq!(Expression::from_str("-"), Err(ParseError::IndexOutOfRange));
    assert_eq!(Expression::from_str("()"), Err(ParseError::IndexOutOfRange));
}

#[test]
fn an_open_parenthesis_without_its_end_is_rejected() {
    assert_eq!(Expression::from_str("(1+2"), Err(ParseError::IndexOutOfRange));
    assert_eq!(Expression::from_str("("), Err(ParseError::IndexOutOfRange));
}

#[test]
fn a_closing_parenthesis_without_its_start_is_rejected() {
    assert_eq!(Expression::from_str(")"), Err(ParseError::NumberFormatError));
    assert_eq!(Expression::from_str("1+2)"), Err(ParseError::NumberFormatError));
}

#[test]
fn what_is_no_literal_is_rejected() {
    for text in ["abc", "1.2.3", "1 2", "1e", ".", "0x10", "1_000", "2a", "é", "١"] {
        assert_eq!(Expression::from_str(text), Err(ParseError::NumberFormatError));
    }
}

#[test]
fn the_left_side_fails_first() {
    assert_eq!(Expression::from_str("x+"), Err(ParseError::NumberFormatError));
    assert_eq!(Expression::from_str("+x"), Err(ParseError::IndexOutOfRange));
}

#[test]
fn a_group_after_a_number_loses_its_ends() {
    assert_eq!(Expression::from_str("2(3)"), Err(ParseError::IndexOutOfRange));
}

#[test]
fn the_first_and_the_last_byte_of_a_group_are_dropped_unseen() {
    assert_eq!(Expression::from_str("(5("), Ok(parenthesis(number("5"))));
}

#[test]
fn a_group_without_its_end_loses_its_last_byte() {
    assert_eq!(Expression::from_str("(12"), Ok(parenthesis(number("1"))));
    assert_eq!(
        Expression::from_str("(12+3"),
        Ok(binary(
            BinaryOperator::Addition,
            parenthesis(number("1")),
            number("3")
        ))
    );
}

fn symbol_of(operator: BinaryOperator) -> char {
    match operator {
        BinaryOperator::Addition => '+',
        BinaryOperator::Subtraction => '-',
        BinaryOperator::Multiplication => '*',
        BinaryOperator::Division => '/',
        BinaryOperator::Exponentiation => '^',
    }
}

fn level_of(operator: BinaryOperator) -> u8 {
    match operator {
        BinaryOperator::Addition | BinaryOperator::Subtraction => 1,
        BinaryOperator::Multiplication | BinaryOperator::Division => 2,
        BinaryOperator::Exponentiation => 3,
    }
}

const OPERATORS: [BinaryOperator; 5] = [
    BinaryOperator::Addition,
    BinaryOperator::Subtraction,
    BinaryOperator::Multiplication,
    BinaryOperator::Division,
    BinaryOperator::Exponentiation,
];

#[test]
fn two_operators_group_by_their_priorities() {
    for earlier in OPERATORS {
        for later in OPERATORS {
            let text = format!("7{}2.5{}1e2", symbol_of(earlier), symbol_of(later));
            let expected = if level_of(later) <= level_of(earlier) {
                binary(
                    later,
                    binary(earlier, number("7"), number("2.5")),
                    number("1e2"),
                )
            } else {
                binary(
                    earlier,
                    number("7"),
                    binary(later, number("2.5"), number("1e2")),
                )
            };
            assert_eq!(Expression::from_str(&text), Ok(expected), "{text}");
        }
    }
}

#[test]
fn a_group_is_an_operand_whatever_the_operators_are() {
    for inner in OPERATORS {
        for outer in OPERATORS {
            let text = format!("(7{}2.5){}1e2", symbol_of(inner), symbol_of(outer));
            let expected = binary(
                outer,
                parenthesis(binary(inner, number("7"), number("2.5"))),
                number("1e2"),
            );
            assert_eq!(Expression::from_str(&text), Ok(expected), "{text}");
        }
    }
}

#[test]
fn a_leading_negation_belongs_to_the_first_operand() {
    for operator in OPERATORS {
        let text = format!("-7{}2", symbol_of(operator));
        let expected = binary(operator, negation(number("7")), number("2"));
        assert_eq!(Expression::from_str(&text), Ok(expected), "{text}");
    }
}

#[test]
fn an_operator_needs_both_operands() {
    for operator in OPERATORS {
        let symbol = symbol_of(operator);
        assert_eq!(
            Expression::from_str(&format!("7{symbol}")),
            Err(ParseError::IndexOutOfRange)
        );
        if symbol != '-' {
            assert_eq!(
                Expression::from_str(&format!("{symbol}7")),
                Err(ParseError::IndexOutOfRange)
            );
        }
    }
}

#[test]
fn whitespace_around_a_text_changes_nothing() {
    for text in ["42", "1-2-3", "(2+3)*4", "-5^2", "1+", "x", ""] {
        let padded = format!(" \t\r\n{text}\n \t");
        assert_eq!(Expression::from_str(&padded), Expression::from_str(text));
    }
}

#[test]
fn every_leaf_is_a_literal_without_a_sign() {
    fn leaves(expression: &Expression, found: &mut Vec<Vec<u8>>) {
        match expression {
            Expression::BinaryOperation(operation) => {
                leaves(&operation.left, found);
                leaves(&operation.right, found);
            }
            Expression::UnaryNegation(operand) => leaves(operand, found),
            Expression::Parenthesis(inner) => leaves(inner, found),
            Expression::Number(text) => found.push(text.clone()),
        }
    }
    let mut found = Vec::new();
    leaves(&parsed("-1.5e3*(inf--.5)/NaN^7."), &mut found);
    assert_eq!(
        found,
        vec![
            b"1.5e3".to_vec(),
            b"inf".to_vec(),
            b".5".to_vec(),
            b"NaN".to_vec(),
            b"7.".to_vec()
        ]
    );
    for text in found {
        assert!(calculator::literal::is_number_literal(&text));
        assert!(!text.contains(&b'-') && !text.contains(&b'+'));
    }
}

#[test]
fn no_text_fails_for_an_invalid_operator() {
    for text in ["", "1+", "(1+2", "a", "1^", "^", "1//2", "((", "))", "1-*2"] {
        assert_ne!(Expression::from_str(text), Err(ParseError::InvalidOperator));
    }
}

#[test]
fn bytes_and_text_parse_alike() {
    for text in ["1-2-3", "(2+3)*4", "-5^2", "", "1+", "é+1"] {
        assert_eq!(Expression::from_bytes(text.as_bytes()), Expression::from_str(text));
    }
}

#[test]
fn bytes_that_are_no_text_are_no_number() {
    assert_eq!(Expression::from_bytes(&[0xff]), Err(ParseError::NumberFormatError));
    assert_eq!(
        Expression::from_bytes(&[0x31, 0x2b, 0xc3]),
        Err(ParseError::NumberFormatError)
    );
}

#[test]
fn division_by_zero_is_infinite() {
    assert_eq!(
        Expression::from_str("1/0"),
        Ok(binary(BinaryOperator::Division, number("1"), number("0")))
    );
    assert_eq!(value(&parsed("1/0")), f64::INFINITY);
}

#[test]
fn negative_division_by_zero_is_negative_infinity() {
    assert_eq!(
        Expression::from_str("-1/0"),
        Ok(binary(
            BinaryOperator::Division,
            negation(number("1")),
            number("0")
        ))
    );
    assert_eq!(value(&parsed("-1/0")), f64::NEG_INFINITY);
}

#[test]
fn zero_by_zero_is_not_a_number() {
    let quotient = value(&parsed("0/0"));
    assert!(quotient.is_nan());
    assert!(quotient != quotient);
}

#[test]
fn a_negative_base_with_a_fraction_for_exponent_is_not_a_number() {
    assert!(value(&parsed("(-8)^0.5")).is_nan());
}

#[test]
fn each_operator_character_has_its_operator() {
    assert_eq!(BinaryOperator::try_from('+'), Ok(BinaryOperator::Addition));
    assert_eq!(BinaryOperator::try_from('-'), Ok(BinaryOperator::Subtraction));
    assert_eq!(BinaryOperator::try_from('*'), Ok(BinaryOperator::Multiplication));
    assert_eq!(BinaryOperator::try_from('/'), Ok(BinaryOperator::Division));
    assert_eq!(BinaryOperator::try_from('^'), Ok(BinaryOperator::Exponentiation));
}

#[test]
fn other_characters_are_no_operators() {
    for symbol in ['x', '(', ')', ' ', '0', '%', '÷'] {
        assert_eq!(BinaryOperator::try_from(symbol), Err(ParseError::InvalidOperator));
    }
}

#[test]
fn a_long_chain_is_no_higher_than_it_is_long() {
    fn height(expression: &Expression) -> usize {
        match expression {
            Expression::BinaryOperation(operation) => {
                1 + height(&operation.left).max(height(&operation.right))
            }
            Expression::UnaryNegation(operand) => 1 + height(operand),
            Expression::Parenthesis(inner) => 1 + height(inner),
            Expression::Number(_) => 1,
        }
    }
    for text in ["1", "-1", "((1))", "1+2+3+4+5", "----1", "(1+(2*(3-4)))"] {
        assert!(height(&parsed(text)) <= text.len());
    }
    assert_eq!(height(&parsed("----1")), 5);
}
