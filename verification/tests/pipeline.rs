use formula_tree::ast::lexer::TokenType;
use formula_tree::error::{Error, Expected};
use formula_tree::generate_svg_from_string;

#[test]
fn conjunction_of_two_variables_is_drawn_in_full() {
    let document = generate_svg_from_string("A ∧ B").unwrap();
    assert_eq!(
        document,
        "<svg width=\"36\" height=\"80\">\
         <text x=\"14\" y=\"20\">∧</text>\
         <line x1=\"18\" y1=\"22\" x2=\"4\" y2=\"47\" stroke=\"black\" />\
         <line x1=\"18\" y1=\"22\" x2=\"32\" y2=\"47\" stroke=\"black\" />\
         <text x=\"0\" y=\"60\">A</text>\
         <text x=\"28\" y=\"60\">B</text>\
         </svg>"
    );
}

#[test]
fn ascii_spelling_draws_the_same_as_symbols() {
    assert_eq!(
        generate_svg_from_string("!x: P(x) & Q(x) => ~R"),
        generate_svg_from_string("∀x: P(x) ∧ Q(x) ⇒ ¬R")
    );
    assert_eq!(generate_svg_from_string("A <=> B"), generate_svg_from_string("A ⇔ B"));
    assert_eq!(generate_svg_from_string("P[x}"), generate_svg_from_string("P(x)"));
}

#[test]
fn running_twice_gives_the_same_bytes() {
    let input = "∀x: ∃y: P(x, y) ⇒ (Q(y) ∨ ¬R(x)) ⇔ x = y";
    let first = generate_svg_from_string(input).unwrap();
    let second = generate_svg_from_string(input).unwrap();
    assert_eq!(first.as_bytes(), second.as_bytes());
    assert_eq!(generate_svg_from_string("A ∧"), generate_svg_from_string("A ∧"));
}

#[test]
fn a_lexing_failure_ends_the_run() {
    assert_eq!(
        generate_svg_from_string("A ∧ #"),
        Err(Error::UnexpectedCharacter { character: '#', position: 4 })
    );
}

#[test]
fn a_lexing_failure_comes_before_any_parsing_failure() {
    assert_eq!(
        generate_svg_from_string("∧ ∧ @"),
        Err(Error::UnexpectedCharacter { character: '@', position: 4 })
    );
}

#[test]
fn a_parsing_failure_ends_the_run() {
    assert_eq!(
        generate_svg_from_string("(A ∧ B"),
        Err(Error::UnexpectedEndOfInput { context: Expected::ClosingBracket })
    );
    assert_eq!(
        generate_svg_from_string("∀x A"),
        Err(Error::UnexpectedToken {
            expected: Expected::Colon,
            found: TokenType::Identifier,
            position: 2,
        })
    );
    assert_eq!(
        generate_svg_from_string(""),
        Err(Error::UnexpectedEndOfInput { context: Expected::Operand })
    );
}

#[test]
fn trailing_tokens_are_not_drawn() {
    assert_eq!(generate_svg_from_string("A B C"), generate_svg_from_string("A"));
}
