//! Turns a first-order logic formula, written as text, into a tree diagram.
//!
//! The pipeline has four stages: text is split into tokens, the tokens are
//! parsed into an expression tree, the tree is laid out on a plane, and the
//! placed tree is written out as an SVG document.

pub mod ast;
pub mod error;
pub mod text;
pub mod visualizer;

use crate::ast::lexer::{tokens_of, Lexer};
use crate::ast::grammar::parse_tokens;
use crate::ast::parser::Parser;
use crate::error::Error;
use crate::visualizer::renderer::svg_renderer::{
    canvas_fits, canvas_size, document_of, SvgRenderer,
};
use crate::visualizer::tree::layout;
use vstd::prelude::*;

verus! {

/// The drawing of a formula: the document that shows the tree of the
/// formula that the text starts with, or the first failure on the way.
pub open spec fn drawing_of(formula: Seq<char>) -> Result<Seq<char>, Error> {
    match tokens_of(formula) {
        Ok(tokens) => match parse_tokens(tokens) {
            Ok(expression) => if canvas_fits(expression) {
                Ok(document_of(layout(expression, 0, 0)))
            } else {
                Err(Error::CanvasTooLarge)
            },
            Err(e) => Err(e),
        },
        Err(e) => Err(e),
    }
}

/// Whether `result` is what drawing `formula` gives: the document, or the
/// failure.
pub open spec fn is_drawing_of(formula: Seq<char>, result: Result<String, Error>) -> bool {
    match drawing_of(formula) {
        Ok(document) => result is Ok && result->Ok_0@ == document,
        Err(e) => result == Err::<String, Error>(e),
    }
}

/// Drawing a formula twice gives the same document, character for
/// character, or the same failure.
pub proof fn lemma_drawing_is_repeatable(
    formula: Seq<char>,
    first: Result<String, Error>,
    second: Result<String, Error>,
)
    requires
        is_drawing_of(formula, first),
        is_drawing_of(formula, second),
    ensures
        match first {
            Ok(document) => second is Ok && second->Ok_0@ == document@,
            Err(e) => second == Err::<String, Error>(e),
        },
{
}

/// Draws the formula that `formula` starts with as an SVG document.
pub fn generate_svg_from_string(formula: &str) -> (result: Result<String, Error>)
    ensures
        is_drawing_of(formula@, result),
{
    let mut lexer = Lexer::new(formula);
    let tokens = match lexer.tokenize() {
        Ok(tokens) => tokens,
        Err(e) => {
            return Err(e);
        },
    };
    let mut parser = Parser::new(tokens);
    let expression = match parser.parse() {
        Ok(expression) => expression,
        Err(e) => {
            return Err(e);
        },
    };
    if canvas_size(&expression).is_none() {
        return Err(Error::CanvasTooLarge);
    }
    Ok(SvgRenderer::new(expression).render())
}

} // verus!

