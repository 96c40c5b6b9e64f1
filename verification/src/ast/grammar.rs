//! The grammar of formulas, as functions from tokens to formulas.
//!
//! Every function takes the tokens and the place to start at, and gives the
//! formula that stands there with the number of tokens it spans, or the
//! first failure. Binary operators are grouped by precedence climbing; a
//! quantifier reaches as far to the right as it can.

use crate::ast::lexer::{TokenType, TokenView};
use crate::ast::parser::{
    precedence_of, BinaryOperator, ExpressionView, QuantifyingOperator, UnaryOperator,
};
use crate::error::{Error, Expected};
use vstd::prelude::*;

verus! {

/// The binary operator that a token of kind `kind` stands for, if any.
pub open spec fn binary_operator(kind: TokenType) -> Option<BinaryOperator> {
    match kind {
        TokenType::And => Some(BinaryOperator::Conjunction),
        TokenType::Or => Some(BinaryOperator::Disjunction),
        TokenType::Implies => Some(BinaryOperator::Implication),
        TokenType::Iff => Some(BinaryOperator::Iff),
        TokenType::Equals => Some(BinaryOperator::Equals),
        TokenType::NotEquals => Some(BinaryOperator::NotEquals),
        _ => None,
    }
}

/// The quantifier that a token of kind `kind` stands for, if any.
pub open spec fn quantifier(kind: TokenType) -> Option<QuantifyingOperator> {
    match kind {
        TokenType::ForAll => Some(QuantifyingOperator::ForAll),
        TokenType::Exists => Some(QuantifyingOperator::Exists),
        _ => None,
    }
}

/// How many tokens lie at and behind `pos`.
pub open spec fn remaining(tokens: Seq<TokenView>, pos: nat) -> nat {
    if pos < tokens.len() {
        (tokens.len() - pos) as nat
    } else {
        0
    }
}

/// Whether `pos` holds a token of kind `kind`.
pub open spec fn holds(tokens: Seq<TokenView>, pos: nat, kind: TokenType) -> bool {
    pos < tokens.len() && tokens[pos as int].kind == kind
}

/// The failure of finding, at `pos`, something else than `expected`.
pub open spec fn unexpected(tokens: Seq<TokenView>, pos: nat, expected: Expected) -> Error {
    if pos < tokens.len() {
        Error::UnexpectedToken { expected, found: tokens[pos as int].kind, position: pos as usize }
    } else {
        Error::UnexpectedEndOfInput { context: expected }
    }
}

/// What parsing one construct gives: the formula and the number of tokens
/// it spans, or the first failure.
pub type Parsed = Result<(ExpressionView, nat), Error>;

/// What parsing the rest of an argument list gives: the arguments and the
/// number of tokens up to and including the closing bracket.
pub type ParsedArguments = Result<(Seq<ExpressionView>, nat), Error>;

/// `expression := binary(0)`.
pub open spec fn parse_expression(tokens: Seq<TokenView>, pos: nat) -> Parsed
    decreases remaining(tokens, pos), 4nat,
{
    parse_binary(tokens, pos, 0)
}

/// `binary(floor) := unary ( operator binary(precedence of operator) )*`,
/// going on while the operator ahead binds at least as tightly as `floor`.
/// A right operand so takes every operator that binds as tightly as its
/// own: `A ∧ B ∧ C` is `A ∧ (B ∧ C)`, and `A ∧ B ∨ C` is `(A ∧ B) ∨ C`.
pub open spec fn parse_binary(tokens: Seq<TokenView>, pos: nat, floor: nat) -> Parsed
    decreases remaining(tokens, pos), 3nat,
{
    match parse_unary(tokens, pos) {
        Ok((left, used)) => climb(tokens, pos, used, left, floor),
        Err(e) => Err(e),
    }
}

/// The loop of `binary`: `left` spans the `used` tokens from `start`, and
/// operators with their right operands are taken on while they bind at
/// least as tightly as `floor`.
pub open spec fn climb(
    tokens: Seq<TokenView>,
    start: nat,
    used: nat,
    left: ExpressionView,
    floor: nat,
) -> Parsed
    decreases remaining(tokens, start + used), 2nat,
{
    let at = start + used;
    if at < tokens.len() && binary_operator(tokens[at as int].kind) is Some && precedence_of(
        binary_operator(tokens[at as int].kind)->0,
    ) >= floor {
        let operator = binary_operator(tokens[at as int].kind)->0;
        match parse_binary(tokens, at + 1, precedence_of(operator)) {
            Ok((right, more)) => climb(
                tokens,
                start,
                used + 1 + more,
                ExpressionView::Binary { left: Box::new(left), operator, right: Box::new(right) },
                floor,
            ),
            Err(e) => Err(e),
        }
    } else {
        Ok((left, used))
    }
}

/// `unary := Not unary | quantifier Identifier Colon expression | primary`.
pub open spec fn parse_unary(tokens: Seq<TokenView>, pos: nat) -> Parsed
    decreases remaining(tokens, pos), 1nat,
{
    if holds(tokens, pos, TokenType::Not) {
        match parse_unary(tokens, pos + 1) {
            Ok((expression, used)) => Ok(
                (
                    ExpressionView::Unary {
                        operator: UnaryOperator::Not,
                        expression: Box::new(expression),
                    },
                    1 + used,
                ),
            ),
            Err(e) => Err(e),
        }
    } else if pos < tokens.len() && quantifier(tokens[pos as int].kind) is Some {
        if !holds(tokens, pos + 1, TokenType::Identifier) {
            Err(unexpected(tokens, pos + 1, Expected::Variable))
        } else if !holds(tokens, pos + 2, TokenType::Colon) {
            Err(unexpected(tokens, pos + 2, Expected::Colon))
        } else {
            match parse_expression(tokens, pos + 3) {
                Ok((formula, used)) => Ok(
                    (
                        ExpressionView::Quantifier {
                            operator: quantifier(tokens[pos as int].kind)->0,
                            variable: tokens[(pos + 1) as int].value,
                            formula: Box::new(formula),
                        },
                        3 + used,
                    ),
                ),
                Err(e) => Err(e),
            }
        }
    } else {
        parse_primary(tokens, pos)
    }
}

/// `primary := Identifier ParenOpen arguments | Identifier | ParenOpen
/// expression ParenClose`. An identifier is a predicate exactly when an
/// opening bracket follows it.
pub open spec fn parse_primary(tokens: Seq<TokenView>, pos: nat) -> Parsed
    decreases remaining(tokens, pos), 0nat,
{
    if holds(tokens, pos, TokenType::Identifier) {
        if holds(tokens, pos + 1, TokenType::ParenOpen) {
            if holds(tokens, pos + 2, TokenType::ParenClose) {
                Ok(
                    (
                        ExpressionView::Predicate {
                            identifier: tokens[pos as int].value,
                            arguments: Seq::empty(),
                        },
                        3,
                    ),
                )
            } else {
                match parse_arguments(tokens, pos + 2) {
                    Ok((arguments, used)) => Ok(
                        (
                            ExpressionView::Predicate {
                                identifier: tokens[pos as int].value,
                                arguments,
                            },
                            2 + used,
                        ),
                    ),
                    Err(e) => Err(e),
                }
            }
        } else {
            Ok((ExpressionView::Variable { identifier: tokens[pos as int].value }, 1))
        }
    } else if holds(tokens, pos, TokenType::ParenOpen) {
        match parse_expression(tokens, pos + 1) {
            Ok((expression, used)) => if holds(tokens, pos + 1 + used, TokenType::ParenClose) {
                Ok((expression, used + 2))
            } else {
                Err(unexpected(tokens, pos + 1 + used, Expected::ClosingBracket))
            },
            Err(e) => Err(e),
        }
    } else {
        Err(unexpected(tokens, pos, Expected::Operand))
    }
}

/// `arguments := primary ( Comma primary )* ParenClose`: one argument at
/// `pos`, then either a comma and more arguments or the closing bracket.
pub open spec fn parse_arguments(tokens: Seq<TokenView>, pos: nat) -> ParsedArguments
    decreases remaining(tokens, pos), 1nat,
{
    match parse_primary(tokens, pos) {
        Ok((first, used)) => if holds(tokens, pos + used, TokenType::ParenClose) {
            Ok((seq![first], used + 1))
        } else if holds(tokens, pos + used, TokenType::Comma) {
            match parse_arguments(tokens, pos + used + 1) {
                Ok((others, more)) => Ok((seq![first] + others, used + 1 + more)),
                Err(e) => Err(e),
            }
        } else {
            Err(unexpected(tokens, pos + used, Expected::ClosingBracket))
        },
        Err(e) => Err(e),
    }
}

/// The formula that the tokens start with, or the first failure. Tokens
/// behind a complete formula are not looked at.
pub open spec fn parse_tokens(tokens: Seq<TokenView>) -> Result<ExpressionView, Error> {
    match parse_expression(tokens, 0) {
        Ok((expression, _)) => Ok(expression),
        Err(e) => Err(e),
    }
}

/// A quantifier reaches over the whole of what follows its colon: where an
/// operand, a binary operator and that operator's right side follow, and no
/// further operator, the quantified formula is the two joined by the
/// operator, not the first operand alone.
pub proof fn lemma_quantifier_scope_is_maximal(
    tokens: Seq<TokenView>,
    pos: nat,
    first: ExpressionView,
    used: nat,
    second: ExpressionView,
    more: nat,
)
    requires
        pos < tokens.len(),
        quantifier(tokens[pos as int].kind) is Some,
        holds(tokens, pos + 1, TokenType::Identifier),
        holds(tokens, pos + 2, TokenType::Colon),
        parse_unary(tokens, pos + 3) == Ok::<(ExpressionView, nat), Error>((first, used)),
        pos + 3 + used < tokens.len(),
        binary_operator(tokens[(pos + 3 + used) as int].kind) is Some,
        parse_binary(
            tokens,
            pos + 3 + used + 1,
            precedence_of(binary_operator(tokens[(pos + 3 + used) as int].kind)->0),
        ) == Ok::<(ExpressionView, nat), Error>((second, more)),
        !(pos + 3 + used + 1 + more < tokens.len() && binary_operator(
            tokens[(pos + 3 + used + 1 + more) as int].kind,
        ) is Some),
    ensures
        parse_unary(tokens, pos) == Ok::<(ExpressionView, nat), Error>(
            (
                ExpressionView::Quantifier {
                    operator: quantifier(tokens[pos as int].kind)->0,
                    variable: tokens[(pos + 1) as int].value,
                    formula: Box::new(
                        ExpressionView::Binary {
                            left: Box::new(first),
                            operator: binary_operator(tokens[(pos + 3 + used) as int].kind)->0,
                            right: Box::new(second),
                        },
                    ),
                },
                3 + used + 1 + more,
            ),
        ),
{
    let operator = binary_operator(tokens[(pos + 3 + used) as int].kind)->0;
    let joined = ExpressionView::Binary {
        left: Box::new(first),
        operator,
        right: Box::new(second),
    };
    assert(climb(tokens, pos + 3, used + 1 + more, joined, 0) == Ok::<
        (ExpressionView, nat),
        Error,
    >((joined, used + 1 + more)));
    assert(climb(tokens, pos + 3, used, first, 0) == climb(
        tokens,
        pos + 3,
        used + 1 + more,
        joined,
        0,
    ));
    assert(parse_binary(tokens, pos + 3, 0) == climb(tokens, pos + 3, used, first, 0));
    assert(parse_expression(tokens, pos + 3) == parse_binary(tokens, pos + 3, 0));
}

/// A formula spans at least one token and ends inside the tokens.
pub proof fn lemma_formula_spans_tokens(tokens: Seq<TokenView>, pos: nat)
    ensures
        parse_expression(tokens, pos) matches Ok((_, used)) ==> 1 <= used && pos + used
            <= tokens.len(),
    decreases remaining(tokens, pos), 4nat,
{
    lemma_binary_spans_tokens(tokens, pos, 0);
}

proof fn lemma_binary_spans_tokens(tokens: Seq<TokenView>, pos: nat, floor: nat)
    ensures
        parse_binary(tokens, pos, floor) matches Ok((_, used)) ==> 1 <= used && pos + used
            <= tokens.len(),
    decreases remaining(tokens, pos), 3nat,
{
    lemma_unary_spans_tokens(tokens, pos);
    match parse_unary(tokens, pos) {
        Ok((left, used)) => {
            lemma_climb_spans_tokens(tokens, pos, used, left, floor);
        },
        Err(_) => {},
    }
}

proof fn lemma_climb_spans_tokens(
    tokens: Seq<TokenView>,
    start: nat,
    used: nat,
    left: ExpressionView,
    floor: nat,
)
    requires
        1 <= used,
        start + used <= tokens.len(),
    ensures
        climb(tokens, start, used, left, floor) matches Ok((_, all)) ==> used <= all && start
            + all <= tokens.len(),
    decreases remaining(tokens, start + used), 2nat,
{
    let at = start + used;
    if at < tokens.len() && binary_operator(tokens[at as int].kind) is Some && precedence_of(
        binary_operator(tokens[at as int].kind)->0,
    ) >= floor {
        let operator = binary_operator(tokens[at as int].kind)->0;
        lemma_binary_spans_tokens(tokens, at + 1, precedence_of(operator));
        match parse_binary(tokens, at + 1, precedence_of(operator)) {
            Ok((right, more)) => {
                lemma_climb_spans_tokens(
                    tokens,
                    start,
                    used + 1 + more,
                    ExpressionView::Binary {
                        left: Box::new(left),
                        operator,
                        right: Box::new(right),
                    },
                    floor,
                );
            },
            Err(_) => {},
        }
    }
}

proof fn lemma_unary_spans_tokens(tokens: Seq<TokenView>, pos: nat)
    ensures
        parse_unary(tokens, pos) matches Ok((_, used)) ==> 1 <= used && pos + used
            <= tokens.len(),
    decreases remaining(tokens, pos), 1nat,
{
    if holds(tokens, pos, TokenType::Not) {
        lemma_unary_spans_tokens(tokens, pos + 1);
    } else if pos < tokens.len() && quantifier(tokens[pos as int].kind) is Some {
        if holds(tokens, pos + 1, TokenType::Identifier) && holds(
            tokens,
            pos + 2,
            TokenType::Colon,
        ) {
            lemma_formula_spans_tokens(tokens, pos + 3);
        }
    } else {
        lemma_primary_spans_tokens(tokens, pos);
    }
}

proof fn lemma_primary_spans_tokens(tokens: Seq<TokenView>, pos: nat)
    ensures
        parse_primary(tokens, pos) matches Ok((_, used)) ==> 1 <= used && pos + used
            <= tokens.len(),
    decreases remaining(tokens, pos), 0nat,
{
    if holds(tokens, pos, TokenType::Identifier) {
        if holds(tokens, pos + 1, TokenType::ParenOpen) && !holds(
            tokens,
            pos + 2,
            TokenType::ParenClose,
        ) {
            lemma_arguments_span_tokens(tokens, pos + 2);
        }
    } else if holds(tokens, pos, TokenType::ParenOpen) {
        lemma_formula_spans_tokens(tokens, pos + 1);
    }
}

proof fn lemma_arguments_span_tokens(tokens: Seq<TokenView>, pos: nat)
    ensures
        parse_arguments(tokens, pos) matches Ok((arguments, used)) ==> 1 <= arguments.len()
            && 2 <= used && pos + used <= tokens.len(),
    decreases remaining(tokens, pos), 1nat,
{
    lemma_primary_spans_tokens(tokens, pos);
    match parse_primary(tokens, pos) {
        Ok((first, used)) => {
            if !holds(tokens, pos + used, TokenType::ParenClose) && holds(
                tokens,
                pos + used,
                TokenType::Comma,
            ) {
                lemma_arguments_span_tokens(tokens, pos + used + 1);
            }
        },
        Err(_) => {},
    }
}

/// Whether two runs of tokens read alike: they hold the same kinds in the
/// same places, and identifiers hold the same names. The text of any other
/// token, such as which bracket was written, may differ.
pub open spec fn read_alike(a: Seq<TokenView>, b: Seq<TokenView>) -> bool {
    &&& a.len() == b.len()
    &&& forall|i: int|
        0 <= i < a.len() ==> (#[trigger] a[i]).kind == b[i].kind && (a[i].kind
            == TokenType::Identifier ==> a[i].value == b[i].value)
}

/// Tokens that read alike parse alike: the formula depends on the kinds of
/// the tokens and on the names of identifiers, and on nothing else.
pub proof fn lemma_parse_reads_kinds_and_names(a: Seq<TokenView>, b: Seq<TokenView>, pos: nat)
    requires
        read_alike(a, b),
    ensures
        parse_expression(a, pos) == parse_expression(b, pos),
    decreases remaining(a, pos), 4nat,
{
    lemma_binary_reads_kinds_and_names(a, b, pos, 0);
}

proof fn lemma_binary_reads_kinds_and_names(
    a: Seq<TokenView>,
    b: Seq<TokenView>,
    pos: nat,
    floor: nat,
)
    requires
        read_alike(a, b),
    ensures
        parse_binary(a, pos, floor) == parse_binary(b, pos, floor),
    decreases remaining(a, pos), 3nat,
{
    lemma_unary_reads_kinds_and_names(a, b, pos);
    match parse_unary(a, pos) {
        Ok((left, used)) => {
            lemma_climb_reads_kinds_and_names(a, b, pos, used, left, floor);
        },
        Err(_) => {},
    }
}

proof fn lemma_climb_reads_kinds_and_names(
    a: Seq<TokenView>,
    b: Seq<TokenView>,
    start: nat,
    used: nat,
    left: ExpressionView,
    floor: nat,
)
    requires
        read_alike(a, b),
    ensures
        climb(a, start, used, left, floor) == climb(b, start, used, left, floor),
    decreases remaining(a, start + used), 2nat,
{
    let at = start + used;
    if at < a.len() && binary_operator(a[at as int].kind) is Some && precedence_of(
        binary_operator(a[at as int].kind)->0,
    ) >= floor {
        let operator = binary_operator(a[at as int].kind)->0;
        lemma_binary_reads_kinds_and_names(a, b, at + 1, precedence_of(operator));
        match parse_binary(a, at + 1, precedence_of(operator)) {
            Ok((right, more)) => {
                lemma_climb_reads_kinds_and_names(
                    a,
                    b,
                    start,
                    used + 1 + more,
                    ExpressionView::Binary {
                        left: Box::new(left),
                        operator,
                        right: Box::new(right),
                    },
                    floor,
                );
            },
            Err(_) => {},
        }
    }
}

proof fn lemma_unary_reads_kinds_and_names(a: Seq<TokenView>, b: Seq<TokenView>, pos: nat)
    requires
        read_alike(a, b),
    ensures
        parse_unary(a, pos) == parse_unary(b, pos),
    decreases remaining(a, pos), 1nat,
{
    if holds(a, pos, TokenType::Not) {
        lemma_unary_reads_kinds_and_names(a, b, pos + 1);
    } else if pos < a.len() && quantifier(a[pos as int].kind) is Some {
        if holds(a, pos + 1, TokenType::Identifier) && holds(a, pos + 2, TokenType::Colon) {
            lemma_parse_reads_kinds_and_names(a, b, pos + 3);
        }
    } else {
        lemma_primary_reads_kinds_and_names(a, b, pos);
    }
}

proof fn lemma_primary_reads_kinds_and_names(a: Seq<TokenView>, b: Seq<TokenView>, pos: nat)
    requires
        read_alike(a, b),
    ensures
        parse_primary(a, pos) == parse_primary(b, pos),
    decreases remaining(a, pos), 0nat,
{
    if holds(a, pos, TokenType::Identifier) {
        if holds(a, pos + 1, TokenType::ParenOpen) && !holds(a, pos + 2, TokenType::ParenClose) {
            lemma_arguments_read_kinds_and_names(a, b, pos + 2);
        }
    } else if holds(a, pos, TokenType::ParenOpen) {
        lemma_parse_reads_kinds_and_names(a, b, pos + 1);
    }
}

proof fn lemma_arguments_read_kinds_and_names(a: Seq<TokenView>, b: Seq<TokenView>, pos: nat)
    requires
        read_alike(a, b),
    ensures
        parse_arguments(a, pos) == parse_arguments(b, pos),
    decreases remaining(a, pos), 1nat,
{
    lemma_primary_reads_kinds_and_names(a, b, pos);
    match parse_primary(a, pos) {
        Ok((first, used)) => {
            if !holds(a, pos + used, TokenType::ParenClose) && holds(
                a,
                pos + used,
                TokenType::Comma,
            ) {
                lemma_arguments_read_kinds_and_names(a, b, pos + used + 1);
            }
        },
        Err(_) => {},
    }
}

} // verus!
