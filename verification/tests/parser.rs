use formula_tree::ast::lexer::{Lexer, Token, TokenType};
use formula_tree::ast::parser::{
    BinaryOperator, Expression, Parser, QuantifyingOperator, UnaryOperator,
};
use formula_tree::error::{Error, Expected};

fn parse(input: &str) -> Result<Expression, Error> {
    let mut lexer = Lexer::new(input);
    let mut parser = Parser::new(lexer.tokenize().unwrap());
    parser.parse()
}

fn variable(name: &str) -> Expression {
    Expression::Variable { identifier: name.to_string() }
}

fn predicate(name: &str, arguments: Vec<Expression>) -> Expression {
    Expression::Predicate { identifier: name.to_string(), arguments }
}

fn binary(left: Expression, operator: BinaryOperator, right: Expression) -> Expression {
    Expression::Binary { left: Box::new(left), operator, right: Box::new(right) }
}

fn not(expression: Expression) -> Expression {
    Expression::Unary { operator: UnaryOperator::Not, expression: Box::new(expression) }
}

fn quantified(operator: QuantifyingOperator, name: &str, formula: Expression) -> Expression {
    Expression::Quantifier { operator, variable: name.to_string(), formula: Box::new(formula) }
}

#[test]
fn conjunction_binds_tighter_than_disjunction() {
    assert_eq!(
        parse("A ∨ B ∧ C"),
        Ok(binary(
            variable("A"),
            BinaryOperator::Disjunction,
            binary(variable("B"), BinaryOperator::Conjunction, variable("C")),
        ))
    );
    assert_eq!(
        parse("A ∧ B ∨ C"),
        Ok(binary(
            binary(variable("A"), BinaryOperator::Conjunction, variable("B")),
            BinaryOperator::Disjunction,
            variable("C"),
        ))
    );
}

#[test]
fn quantifier_scope_takes_the_whole_conjunction() {
    assert_eq!(
        parse("∀x: P(x) ∧ Q(x)"),
        Ok(quantified(
            QuantifyingOperator::ForAll,
            "x",
            binary(
                predicate("P", vec![variable("x")]),
                BinaryOperator::Conjunction,
                predicate("Q", vec![variable("x")]),
            ),
        ))
    );
}

#[test]
fn quantifier_on_the_right_takes_the_rest() {
    assert_eq!(
        parse("A ∧ ∃y: B ∨ C"),
        Ok(binary(
            variable("A"),
            BinaryOperator::Conjunction,
            quantified(
                QuantifyingOperator::Exists,
                "y",
                binary(variable("B"), BinaryOperator::Disjunction, variable("C")),
            ),
        ))
    );
}

#[test]
fn bracket_kinds_are_interchangeable() {
    let expected = predicate("P", vec![variable("x")]);
    assert_eq!(parse("P(x)"), Ok(predicate("P", vec![variable("x")])));
    assert_eq!(parse("P[x]"), Ok(predicate("P", vec![variable("x")])));
    assert_eq!(parse("P{x)"), Ok(expected));
    assert_eq!(parse("[A}"), Ok(variable("A")));
}

#[test]
fn precedence_table_orders_all_operators() {
    assert_eq!(BinaryOperator::Equals.precedence(), 6);
    assert_eq!(BinaryOperator::NotEquals.precedence(), 6);
    assert_eq!(BinaryOperator::Conjunction.precedence(), 5);
    assert_eq!(BinaryOperator::Disjunction.precedence(), 4);
    assert_eq!(BinaryOperator::Implication.precedence(), 3);
    assert_eq!(BinaryOperator::Iff.precedence(), 2);
}

#[test]
fn equality_binds_tighter_than_connectives() {
    assert_eq!(
        parse("a = b ∧ c ≠ d"),
        Ok(binary(
            binary(variable("a"), BinaryOperator::Equals, variable("b")),
            BinaryOperator::Conjunction,
            binary(variable("c"), BinaryOperator::NotEquals, variable("d")),
        ))
    );
}

#[test]
fn implication_binds_tighter_than_iff() {
    assert_eq!(
        parse("A ⇒ B ⇔ C"),
        Ok(binary(
            binary(variable("A"), BinaryOperator::Implication, variable("B")),
            BinaryOperator::Iff,
            variable("C"),
        ))
    );
    assert_eq!(
        parse("A ⇔ B ⇒ C"),
        Ok(binary(
            variable("A"),
            BinaryOperator::Iff,
            binary(variable("B"), BinaryOperator::Implication, variable("C")),
        ))
    );
}

#[test]
fn equal_precedence_nests_to_the_right() {
    assert_eq!(
        parse("A ∧ B ∧ C"),
        Ok(binary(
            variable("A"),
            BinaryOperator::Conjunction,
            binary(variable("B"), BinaryOperator::Conjunction, variable("C")),
        ))
    );
}

#[test]
fn negation_is_prefix_and_nests() {
    assert_eq!(parse("¬¬P"), Ok(not(not(variable("P")))));
    assert_eq!(
        parse("¬A ∧ B"),
        Ok(binary(not(variable("A")), BinaryOperator::Conjunction, variable("B")))
    );
}

#[test]
fn negation_of_a_quantifier_takes_its_scope() {
    assert_eq!(
        parse("¬∀x: A ∧ B"),
        Ok(not(quantified(
            QuantifyingOperator::ForAll,
            "x",
            binary(variable("A"), BinaryOperator::Conjunction, variable("B")),
        )))
    );
}

#[test]
fn brackets_group() {
    assert_eq!(
        parse("(A ∨ B) ∧ C"),
        Ok(binary(
            binary(variable("A"), BinaryOperator::Disjunction, variable("B")),
            BinaryOperator::Conjunction,
            variable("C"),
        ))
    );
    assert_eq!(
        parse("(∀x: A) ∧ B"),
        Ok(binary(
            quantified(QuantifyingOperator::ForAll, "x", variable("A")),
            BinaryOperator::Conjunction,
            variable("B"),
        ))
    );
}

#[test]
fn predicate_arguments_are_primaries() {
    assert_eq!(parse("P()"), Ok(predicate("P", vec![])));
    assert_eq!(
        parse("P(x, f(y), (a ∧ b))"),
        Ok(predicate(
            "P",
            vec![
                variable("x"),
                predicate("f", vec![variable("y")]),
                binary(variable("a"), BinaryOperator::Conjunction, variable("b")),
            ],
        ))
    );
}

#[test]
fn a_bare_compound_is_no_argument() {
    assert_eq!(
        parse("P(a ∧ b)"),
        Err(Error::UnexpectedToken {
            expected: Expected::ClosingBracket,
            found: TokenType::And,
            position: 3,
        })
    );
    assert_eq!(
        parse("P(¬a)"),
        Err(Error::UnexpectedToken {
            expected: Expected::Operand,
            found: TokenType::Not,
            position: 2,
        })
    );
}

#[test]
fn arguments_need_commas_between_them_and_none_elsewhere() {
    assert_eq!(
        parse("P(x y)"),
        Err(Error::UnexpectedToken {
            expected: Expected::ClosingBracket,
            found: TokenType::Identifier,
            position: 3,
        })
    );
    assert_eq!(
        parse("P(x,)"),
        Err(Error::UnexpectedToken {
            expected: Expected::Operand,
            found: TokenType::ParenClose,
            position: 4,
        })
    );
    assert_eq!(
        parse("P(,x)"),
        Err(Error::UnexpectedToken {
            expected: Expected::Operand,
            found: TokenType::Comma,
            position: 2,
        })
    );
}

#[test]
fn tokens_behind_a_complete_formula_are_ignored() {
    assert_eq!(parse("A B"), Ok(variable("A")));
    assert_eq!(parse("A )"), Ok(variable("A")));
    assert_eq!(parse("P(x) , y"), Ok(predicate("P", vec![variable("x")])));
}

#[test]
fn empty_input_misses_an_operand() {
    assert_eq!(parse(""), Err(Error::UnexpectedEndOfInput { context: Expected::Operand }));
}

#[test]
fn operator_without_right_operand_fails() {
    assert_eq!(parse("A ∧"), Err(Error::UnexpectedEndOfInput { context: Expected::Operand }));
    assert_eq!(
        parse("A ∧ ∨ B"),
        Err(Error::UnexpectedToken {
            expected: Expected::Operand,
            found: TokenType::Or,
            position: 2,
        })
    );
    assert_eq!(parse("¬"), Err(Error::UnexpectedEndOfInput { context: Expected::Operand }));
}

#[test]
fn quantifier_needs_variable_colon_and_formula() {
    assert_eq!(parse("∀"), Err(Error::UnexpectedEndOfInput { context: Expected::Variable }));
    assert_eq!(
        parse("∀ ∧"),
        Err(Error::UnexpectedToken {
            expected: Expected::Variable,
            found: TokenType::And,
            position: 1,
        })
    );
    assert_eq!(parse("∃x"), Err(Error::UnexpectedEndOfInput { context: Expected::Colon }));
    assert_eq!(
        parse("∃x P"),
        Err(Error::UnexpectedToken {
            expected: Expected::Colon,
            found: TokenType::Identifier,
            position: 2,
        })
    );
    assert_eq!(parse("∃x:"), Err(Error::UnexpectedEndOfInput { context: Expected::Operand }));
}

#[test]
fn unmatched_opening_bracket_fails() {
    assert_eq!(
        parse("(A"),
        Err(Error::UnexpectedEndOfInput { context: Expected::ClosingBracket })
    );
    assert_eq!(
        parse("(A ∧ B"),
        Err(Error::UnexpectedEndOfInput { context: Expected::ClosingBracket })
    );
    assert_eq!(
        parse("P(x"),
        Err(Error::UnexpectedEndOfInput { context: Expected::ClosingBracket })
    );
    assert_eq!(parse("P("), Err(Error::UnexpectedEndOfInput { context: Expected::Operand }));
    assert_eq!(
        parse("(A : B)"),
        Err(Error::UnexpectedToken {
            expected: Expected::ClosingBracket,
            found: TokenType::Colon,
            position: 2,
        })
    );
}

#[test]
fn a_token_that_starts_no_operand_fails() {
    assert_eq!(
        parse(")"),
        Err(Error::UnexpectedToken {
            expected: Expected::Operand,
            found: TokenType::ParenClose,
            position: 0,
        })
    );
    assert_eq!(
        parse("∧ A"),
        Err(Error::UnexpectedToken {
            expected: Expected::Operand,
            found: TokenType::And,
            position: 0,
        })
    );
    assert_eq!(
        parse("()"),
        Err(Error::UnexpectedToken {
            expected: Expected::Operand,
            found: TokenType::ParenClose,
            position: 1,
        })
    );
}

#[test]
fn parser_reads_hand_made_tokens() {
    let tokens = vec![
        Token::new(TokenType::Not, "not".to_string()),
        Token::new(TokenType::Identifier, "rain".to_string()),
    ];
    let mut parser = Parser::new(tokens);
    assert_eq!(parser.parse(), Ok(not(variable("rain"))));
}

#[test]
fn parse_goes_on_behind_the_last_formula() {
    let mut lexer = Lexer::new("A ∧ B C");
    let mut parser = Parser::new(lexer.tokenize().unwrap());
    assert_eq!(
        parser.parse(),
        Ok(binary(variable("A"), BinaryOperator::Conjunction, variable("B")))
    );
    assert_eq!(parser.parse(), Ok(variable("C")));
    assert_eq!(
        parser.parse(),
        Err(Error::UnexpectedEndOfInput { context: Expected::Operand })
    );
}

#[test]
fn a_failed_parse_leaves_the_cursor_in_place() {
    let mut lexer = Lexer::new("A ∧ )");
    let mut parser = Parser::new(lexer.tokenize().unwrap());
    let failure = Error::UnexpectedToken {
        expected: Expected::Operand,
        found: TokenType::ParenClose,
        position: 2,
    };
    assert_eq!(parser.parse(), Err(failure));
    assert_eq!(parser.parse(), Err(failure));
}

#[test]
fn operators_have_their_symbols() {
    assert_eq!(QuantifyingOperator::ForAll.symbol(), "∀");
    assert_eq!(QuantifyingOperator::Exists.symbol(), "∃");
    assert_eq!(UnaryOperator::Not.symbol(), "¬");
    assert_eq!(BinaryOperator::Conjunction.symbol(), "∧");
    assert_eq!(BinaryOperator::Disjunction.symbol(), "∨");
    assert_eq!(BinaryOperator::Implication.symbol(), "⇒");
    assert_eq!(BinaryOperator::Iff.symbol(), "⇔");
    assert_eq!(BinaryOperator::Equals.symbol(), "=");
    assert_eq!(BinaryOperator::NotEquals.symbol(), "≠");
}
