use formula_tree::ast::lexer::{Lexer, Token, TokenType};
use formula_tree::error::Error;

fn kinds(input: &str) -> Vec<TokenType> {
    let mut lexer = Lexer::new(input);
    lexer.tokenize().unwrap().iter().map(|t| t.kind).collect()
}

fn values(input: &str) -> Vec<String> {
    let mut lexer = Lexer::new(input);
    lexer.tokenize().unwrap().iter().map(|t| t.value.clone()).collect()
}

#[test]
fn token_new_keeps_kind_and_value() {
    let token = Token::new(TokenType::Identifier, "abc".to_string());
    assert_eq!(token.kind, TokenType::Identifier);
    assert_eq!(token.value, "abc");
}

#[test]
fn quantified_predicate_is_split_into_seven_tokens() {
    assert_eq!(
        kinds("∀x:P(x)"),
        vec![
            TokenType::ForAll,
            TokenType::Identifier,
            TokenType::Colon,
            TokenType::Identifier,
            TokenType::ParenOpen,
            TokenType::Identifier,
            TokenType::ParenClose,
        ]
    );
    assert_eq!(values("∀x:P(x)"), vec!["∀", "x", ":", "P", "(", "x", ")"]);
}

#[test]
fn every_symbol_has_its_kind() {
    assert_eq!(
        kinds("∀∃∧∨¬⇒⇔=≠,:"),
        vec![
            TokenType::ForAll,
            TokenType::Exists,
            TokenType::And,
            TokenType::Or,
            TokenType::Not,
            TokenType::Implies,
            TokenType::Iff,
            TokenType::Equals,
            TokenType::NotEquals,
            TokenType::Comma,
            TokenType::Colon,
        ]
    );
}

#[test]
fn ascii_aliases_stand_for_the_symbols() {
    assert_eq!(
        kinds("! ? & | ~"),
        vec![
            TokenType::ForAll,
            TokenType::Exists,
            TokenType::And,
            TokenType::Or,
            TokenType::Not,
        ]
    );
    assert_eq!(values("! ? & | ~"), vec!["!", "?", "&", "|", "~"]);
}

#[test]
fn all_bracket_families_open_and_close() {
    assert_eq!(
        kinds("({[)}]"),
        vec![
            TokenType::ParenOpen,
            TokenType::ParenOpen,
            TokenType::ParenOpen,
            TokenType::ParenClose,
            TokenType::ParenClose,
            TokenType::ParenClose,
        ]
    );
    assert_eq!(values("({[)}]"), vec!["(", "{", "[", ")", "}", "]"]);
}

#[test]
fn ascii_spellings_become_single_symbols() {
    assert_eq!(
        kinds("A => B"),
        vec![TokenType::Identifier, TokenType::Implies, TokenType::Identifier]
    );
    assert_eq!(values("A => B"), vec!["A", "⇒", "B"]);
    assert_eq!(
        kinds("A <=> B"),
        vec![TokenType::Identifier, TokenType::Iff, TokenType::Identifier]
    );
    assert_eq!(values("A <=> B"), vec!["A", "⇔", "B"]);
    assert_eq!(
        kinds("a ~= b"),
        vec![TokenType::Identifier, TokenType::NotEquals, TokenType::Identifier]
    );
    assert_eq!(values("a ~= b"), vec!["a", "≠", "b"]);
}

#[test]
fn implication_is_spelled_out_before_inequality() {
    assert_eq!(kinds("~=>"), vec![TokenType::Not, TokenType::Implies]);
}

#[test]
fn adjacent_spellings_are_all_replaced() {
    assert_eq!(
        kinds("A<=>B=>C~=D"),
        vec![
            TokenType::Identifier,
            TokenType::Iff,
            TokenType::Identifier,
            TokenType::Implies,
            TokenType::Identifier,
            TokenType::NotEquals,
            TokenType::Identifier,
        ]
    );
}

#[test]
fn identifiers_are_maximal_runs_of_letters_and_digits() {
    assert_eq!(values("abc123 x1(y2)"), vec!["abc123", "x1", "(", "y2", ")"]);
    assert_eq!(
        kinds("abc123 x1(y2)"),
        vec![
            TokenType::Identifier,
            TokenType::Identifier,
            TokenType::ParenOpen,
            TokenType::Identifier,
            TokenType::ParenClose,
        ]
    );
}

#[test]
fn identifiers_may_start_with_a_digit_and_hold_other_alphabets() {
    assert_eq!(values("1a é5"), vec!["1a", "é5"]);
}

#[test]
fn whitespace_separates_and_is_dropped() {
    assert_eq!(values("  A \t\n B  "), vec!["A", "B"]);
}

#[test]
fn empty_and_blank_inputs_have_no_tokens() {
    assert!(kinds("").is_empty());
    assert!(kinds("   \n").is_empty());
}

#[test]
fn unexpected_character_is_reported_with_its_position() {
    let mut lexer = Lexer::new("A # B");
    assert_eq!(
        lexer.tokenize().unwrap_err(),
        Error::UnexpectedCharacter { character: '#', position: 2 }
    );
}

#[test]
fn position_counts_characters_of_the_normalized_text() {
    let mut lexer = Lexer::new("A <=> ∀ $");
    assert_eq!(
        lexer.tokenize().unwrap_err(),
        Error::UnexpectedCharacter { character: '$', position: 6 }
    );
}

#[test]
fn a_lone_angle_bracket_is_no_token() {
    let mut lexer = Lexer::new("A < B");
    assert_eq!(
        lexer.tokenize().unwrap_err(),
        Error::UnexpectedCharacter { character: '<', position: 2 }
    );
    let mut lexer = Lexer::new(">");
    assert_eq!(
        lexer.tokenize().unwrap_err(),
        Error::UnexpectedCharacter { character: '>', position: 0 }
    );
}

#[test]
fn next_token_walks_the_text_and_then_stays_at_the_end() {
    let mut lexer = Lexer::new("¬ P");
    let first = lexer.next_token().unwrap().unwrap();
    assert_eq!(first.kind, TokenType::Not);
    assert_eq!(first.value, "¬");
    let second = lexer.next_token().unwrap().unwrap();
    assert_eq!(second.kind, TokenType::Identifier);
    assert_eq!(second.value, "P");
    assert!(lexer.next_token().unwrap().is_none());
    assert!(lexer.next_token().unwrap().is_none());
}

#[test]
fn next_token_stops_at_the_offending_character() {
    let mut lexer = Lexer::new("A %");
    assert_eq!(lexer.next_token().unwrap().unwrap().value, "A");
    let failure = Error::UnexpectedCharacter { character: '%', position: 2 };
    assert_eq!(lexer.next_token().unwrap_err(), failure);
    assert_eq!(lexer.next_token().unwrap_err(), failure);
}

#[test]
fn tokenize_goes_on_from_where_next_token_stopped() {
    let mut lexer = Lexer::new("A ∧ B");
    lexer.next_token().unwrap();
    let rest = lexer.tokenize().unwrap();
    assert_eq!(rest.len(), 2);
    assert_eq!(rest[0].kind, TokenType::And);
    assert_eq!(rest[1].value, "B");
    assert!(lexer.tokenize().unwrap().is_empty());
}
