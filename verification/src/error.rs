//! The failures that the stages report.

use crate::ast::lexer::TokenType;
use vstd::prelude::*;

verus! {

/// What the parser was looking for when it gave up.
#[derive(Clone, Copy, Debug, PartialEq, Eq, Structural)]
pub enum Expected {
    /// An operand: it starts with an identifier, an opening bracket, a
    /// negation or a quantifier.
    Operand,
    /// The identifier that a quantifier binds.
    Variable,
    /// The colon between a quantifier's variable and its formula.
    Colon,
    /// The bracket that closes a group or an argument list.
    ClosingBracket,
}

/// Why a formula could not be turned into a drawing.
#[derive(Clone, Copy, Debug, PartialEq, Eq, Structural)]
pub enum Error {
    /// The text holds a character that starts no token. `position` counts
    /// characters of the normalized text, from zero.
    UnexpectedCharacter { character: char, position: usize },
    /// The parser needed `expected` and met a token of kind `found`.
    /// `position` counts tokens, from zero.
    UnexpectedToken { expected: Expected, found: TokenType, position: usize },
    /// The parser needed `context` and the tokens had run out.
    UnexpectedEndOfInput { context: Expected },
    /// The drawing is wider or taller than `usize` can count.
    CanvasTooLarge,
}

} // verus!
