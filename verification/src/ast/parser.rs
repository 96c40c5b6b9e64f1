//! Builds the expression tree of a formula from its tokens.
//!
//! The parser reads the grammar by recursive descent, one token ahead,
//! without backtracking.

use crate::ast::grammar::{
    binary_operator, climb, holds, parse_arguments, parse_binary, parse_expression,
    parse_primary, parse_unary, remaining, unexpected, Parsed,
};
use crate::ast::lexer::{token_views, Token, TokenType, TokenView};
use crate::error::{Error, Expected};
use vstd::prelude::*;

verus! {

#[derive(Debug, Clone, Copy, PartialEq, Eq, Structural)]
pub enum QuantifyingOperator {
    ForAll,
    Exists,
}

#[derive(Debug, Clone, Copy, PartialEq, Eq, Structural)]
pub enum UnaryOperator {
    Not,
}

/// The binary connectives and relations. Negation binds tighter than all of
/// them and quantifiers looser, so neither has a number here.
#[derive(Debug, Clone, Copy, PartialEq, Eq, Structural)]
pub enum BinaryOperator {
    Conjunction,
    Disjunction,
    Implication,
    Iff,
    Equals,
    NotEquals,
}

/// A formula as a tree. Every node owns its children.
#[derive(Debug, PartialEq, Eq)]
#[allow(inconsistent_fields)]
pub enum Expression {
    Predicate { identifier: String, arguments: Vec<Expression> },
    Variable { identifier: String },
    Quantifier { operator: QuantifyingOperator, variable: String, formula: Box<Expression> },
    Binary { left: Box<Expression>, operator: BinaryOperator, right: Box<Expression> },
    Unary { operator: UnaryOperator, expression: Box<Expression> },
}

/// A formula as the contracts see it.
#[allow(inconsistent_fields)]
pub enum ExpressionView {
    Predicate { identifier: Seq<char>, arguments: Seq<ExpressionView> },
    Variable { identifier: Seq<char> },
    Quantifier { operator: QuantifyingOperator, variable: Seq<char>, formula: Box<ExpressionView> },
    Binary { left: Box<ExpressionView>, operator: BinaryOperator, right: Box<ExpressionView> },
    Unary { operator: UnaryOperator, expression: Box<ExpressionView> },
}

impl Expression {
    /// The formula that this tree holds, with texts as sequences of
    /// characters and children as sequences of formulas.
    pub open spec fn model(&self) -> ExpressionView
        decreases self,
    {
        match self {
            Expression::Predicate { identifier, arguments } => ExpressionView::Predicate {
                identifier: identifier@,
                arguments: Seq::new(
                    arguments@.len(),
                    |i: int|
                        if 0 <= i < arguments@.len() {
                            arguments@[i].model()
                        } else {
                            arbitrary()
                        },
                ),
            },
            Expression::Variable { identifier } => ExpressionView::Variable {
                identifier: identifier@,
            },
            Expression::Quantifier { operator, variable, formula } => ExpressionView::Quantifier {
                operator: *operator,
                variable: variable@,
                formula: Box::new(formula.model()),
            },
            Expression::Binary { left, operator, right } => ExpressionView::Binary {
                left: Box::new(left.model()),
                operator: *operator,
                right: Box::new(right.model()),
            },
            Expression::Unary { operator, expression } => ExpressionView::Unary {
                operator: *operator,
                expression: Box::new(expression.model()),
            },
        }
    }
}

impl View for Expression {
    type V = ExpressionView;

    open spec fn view(&self) -> ExpressionView {
        self.model()
    }
}

/// The number of nodes of `e`, its root included.
pub open spec fn size_of(e: ExpressionView) -> nat
    decreases e,
{
    match e {
        ExpressionView::Predicate { arguments, .. } => 1 + sizes_among(arguments),
        ExpressionView::Variable { .. } => 1,
        ExpressionView::Quantifier { formula, .. } => 1 + size_of(*formula),
        ExpressionView::Binary { left, right, .. } => 1 + size_of(*left) + size_of(*right),
        ExpressionView::Unary { expression, .. } => 1 + size_of(*expression),
    }
}

/// The numbers of nodes of `expressions`, added up.
pub open spec fn sizes_among(expressions: Seq<ExpressionView>) -> nat
    decreases expressions,
{
    if expressions.len() == 0 {
        0
    } else {
        sizes_among(expressions.drop_last()) + size_of(expressions.last())
    }
}

/// The symbol that a quantifier is written and drawn with.
pub open spec fn quantifier_glyph(operator: QuantifyingOperator) -> char {
    match operator {
        QuantifyingOperator::ForAll => '∀',
        QuantifyingOperator::Exists => '∃',
    }
}

/// The symbol that negation is written and drawn with.
pub open spec fn unary_glyph(operator: UnaryOperator) -> char {
    match operator {
        UnaryOperator::Not => '¬',
    }
}

/// The symbol that a binary operator is written and drawn with.
pub open spec fn binary_glyph(operator: BinaryOperator) -> char {
    match operator {
        BinaryOperator::Conjunction => '∧',
        BinaryOperator::Disjunction => '∨',
        BinaryOperator::Implication => '⇒',
        BinaryOperator::Iff => '⇔',
        BinaryOperator::Equals => '=',
        BinaryOperator::NotEquals => '≠',
    }
}

impl QuantifyingOperator {
    /// The operator's symbol as a string.
    pub fn symbol(&self) -> (s: &'static str)
        ensures
            s@ == seq![quantifier_glyph(*self)],
    {
        proof {
            reveal_strlit("∀");
            reveal_strlit("∃");
        }
        let s = match self {
            QuantifyingOperator::ForAll => "∀",
            QuantifyingOperator::Exists => "∃",
        };
        assert(s@ =~= seq![quantifier_glyph(*self)]);
        s
    }
}

impl UnaryOperator {
    /// The operator's symbol as a string.
    pub fn symbol(&self) -> (s: &'static str)
        ensures
            s@ == seq![unary_glyph(*self)],
    {
        proof {
            reveal_strlit("¬");
        }
        let s = match self {
            UnaryOperator::Not => "¬",
        };
        assert(s@ =~= seq![unary_glyph(*self)]);
        s
    }
}

impl BinaryOperator {
    /// The operator's symbol as a string.
    pub fn symbol(&self) -> (s: &'static str)
        ensures
            s@ == seq![binary_glyph(*self)],
    {
        proof {
            reveal_strlit("∧");
            reveal_strlit("∨");
            reveal_strlit("⇒");
            reveal_strlit("⇔");
            reveal_strlit("=");
            reveal_strlit("≠");
        }
        let s = match self {
            BinaryOperator::Conjunction => "∧",
            BinaryOperator::Disjunction => "∨",
            BinaryOperator::Implication => "⇒",
            BinaryOperator::Iff => "⇔",
            BinaryOperator::Equals => "=",
            BinaryOperator::NotEquals => "≠",
        };
        assert(s@ =~= seq![binary_glyph(*self)]);
        s
    }
}

/// How tightly `operator` binds: the higher, the tighter.
pub open spec fn precedence_of(operator: BinaryOperator) -> nat {
    match operator {
        BinaryOperator::Equals => 6,
        BinaryOperator::NotEquals => 6,
        BinaryOperator::Conjunction => 5,
        BinaryOperator::Disjunction => 4,
        BinaryOperator::Implication => 3,
        BinaryOperator::Iff => 2,
    }
}

impl BinaryOperator {
    pub fn precedence(&self) -> (p: u8)
        ensures
            p == precedence_of(*self),
    {
        match self {
            BinaryOperator::Conjunction => 5,
            BinaryOperator::Disjunction => 4,
            BinaryOperator::Implication => 3,
            BinaryOperator::Iff => 2,
            BinaryOperator::Equals => 6,
            BinaryOperator::NotEquals => 6,
        }
    }
}

/// The views of a run of formulas.
pub open spec fn expression_views(expressions: Seq<Expression>) -> Seq<ExpressionView> {
    Seq::new(expressions.len(), |i: int| expressions[i]@)
}

/// What an exec parsing step owes: on success the formula that the grammar
/// gives and a cursor moved over the tokens it spans, else the grammar's
/// failure.
pub open spec fn agrees(
    result: Result<Expression, Error>,
    before: nat,
    after: nat,
    parsed: Parsed,
) -> bool {
    match parsed {
        Ok((expression, used)) => {
            &&& result matches Ok(found)
            &&& found@ == expression
            &&& after == before + used
        },
        Err(e) => result == Err::<Expression, Error>(e),
    }
}

/// A cursor over the tokens of a formula.
pub struct Parser {
    tokens: Vec<Token>,
    current: usize,
}

impl Parser {
    #[verifier::type_invariant]
    spec fn cursor_in_tokens(self) -> bool {
        self.current <= self.tokens.len()
    }

    /// The tokens that are parsed.
    pub closed spec fn tokens(&self) -> Seq<TokenView> {
        token_views(self.tokens@)
    }

    /// How many tokens lie behind the cursor.
    pub closed spec fn position(&self) -> nat {
        self.current as nat
    }

    /// A parser at the first of `tokens`.
    pub fn new(tokens: Vec<Token>) -> (parser: Self)
        ensures
            parser.tokens() == token_views(tokens@),
            parser.position() == 0,
    {
        Self { tokens, current: 0 }
    }

    /// Parses one formula from the cursor on and moves the cursor behind it.
    /// On a failure the cursor stays where it was.
    pub fn parse(&mut self) -> (result: Result<Expression, Error>)
        ensures
            final(self).tokens() == old(self).tokens(),
            agrees(
                result,
                old(self).position(),
                final(self).position(),
                parse_expression(old(self).tokens(), old(self).position()),
            ),
            result is Err ==> final(self).position() == old(self).position(),
    {
        let start = self.current;
        proof {
            use_type_invariant(&*self);
        }
        let result = self.parse_expression();
        if result.is_err() {
            self.current = start;
        }
        result
    }

    fn parse_expression(&mut self) -> (result: Result<Expression, Error>)
        ensures
            final(self).tokens() == old(self).tokens(),
            agrees(
                result,
                old(self).position(),
                final(self).position(),
                parse_expression(old(self).tokens(), old(self).position()),
            ),
        decreases remaining(old(self).tokens(), old(self).position()), 4nat,
    {
        self.parse_binary_expression(0)
    }

    fn parse_binary_expression(&mut self, precedence: u8) -> (result: Result<Expression, Error>)
        ensures
            final(self).tokens() == old(self).tokens(),
            agrees(
                result,
                old(self).position(),
                final(self).position(),
                parse_binary(old(self).tokens(), old(self).position(), precedence as nat),
            ),
        decreases remaining(old(self).tokens(), old(self).position()), 3nat,
    {
        let ghost start = self.position();
        let ghost goal = parse_binary(self.tokens(), start, precedence as nat);
        let mut left = match self.parse_unary_expression() {
            Ok(left) => left,
            Err(e) => {
                assert(parse_unary(old(self).tokens(), start) is Err);
                assert(goal is Err);
                return Err(e);
            },
        };
        proof {
            use_type_invariant(&*self);
        }
        loop
            invariant
                self.tokens() == old(self).tokens(),
                start == old(self).position(),
                start <= self.position() <= self.tokens().len(),
                goal == parse_binary(self.tokens(), start, precedence as nat),
                goal == climb(
                    self.tokens(),
                    start,
                    (self.position() - start) as nat,
                    left@,
                    precedence as nat,
                ),
            decreases remaining(self.tokens(), self.position()),
        {
            let operator = match self.peek_binary_operator() {
                Some(operator) => operator,
                None => {
                    return Ok(left);
                },
            };
            let operator_precedence = operator.precedence();
            if operator_precedence < precedence {
                return Ok(left);
            }
            self.consume();
            let right = match self.parse_binary_expression(operator_precedence) {
                Ok(right) => right,
                Err(e) => {
                    return Err(e);
                },
            };
            left = Expression::Binary { left: Box::new(left), operator, right: Box::new(right) };
            proof {
                use_type_invariant(&*self);
            }
        }
    }

    /// The binary operator under the cursor, if one stands there.
    fn peek_binary_operator(&self) -> (operator: Option<BinaryOperator>)
        ensures
            operator == if self.position() < self.tokens().len() {
                binary_operator(self.tokens()[self.position() as int].kind)
            } else {
                None
            },
    {
        match self.current() {
            Some(token) => match token.kind {
                TokenType::And => Some(BinaryOperator::Conjunction),
                TokenType::Or => Some(BinaryOperator::Disjunction),
                TokenType::Implies => Some(BinaryOperator::Implication),
                TokenType::Iff => Some(BinaryOperator::Iff),
                TokenType::Equals => Some(BinaryOperator::Equals),
                TokenType::NotEquals => Some(BinaryOperator::NotEquals),
                _ => None,
            },
            None => None,
        }
    }

    fn parse_unary_expression(&mut self) -> (result: Result<Expression, Error>)
        ensures
            final(self).tokens() == old(self).tokens(),
            agrees(
                result,
                old(self).position(),
                final(self).position(),
                parse_unary(old(self).tokens(), old(self).position()),
            ),
        decreases remaining(old(self).tokens(), old(self).position()), 2nat,
    {
        let token_kind = match self.current() {
            Some(token) => token.kind,
            None => {
                return self.parse_primary_expression();
            },
        };
        match token_kind {
            TokenType::Not => {
                self.consume();
                match self.parse_unary_expression() {
                    Ok(expression) => Ok(
                        Expression::Unary {
                            operator: UnaryOperator::Not,
                            expression: Box::new(expression),
                        },
                    ),
                    Err(e) => Err(e),
                }
            },
            TokenType::ForAll | TokenType::Exists => {
                self.consume();
                let variable = match self.consume_expect(
                    TokenType::Identifier,
                    Expected::Variable,
                ) {
                    Ok(variable) => variable,
                    Err(e) => {
                        return Err(e);
                    },
                };
                match self.consume_expect(TokenType::Colon, Expected::Colon) {
                    Ok(_) => {},
                    Err(e) => {
                        return Err(e);
                    },
                }
                let operator = match token_kind {
                    TokenType::ForAll => QuantifyingOperator::ForAll,
                    _ => QuantifyingOperator::Exists,
                };
                match self.parse_expression() {
                    Ok(formula) => Ok(
                        Expression::Quantifier { operator, variable, formula: Box::new(formula) },
                    ),
                    Err(e) => Err(e),
                }
            },
            _ => self.parse_primary_expression(),
        }
    }

    fn parse_primary_expression(&mut self) -> (result: Result<Expression, Error>)
        ensures
            final(self).tokens() == old(self).tokens(),
            agrees(
                result,
                old(self).position(),
                final(self).position(),
                parse_primary(old(self).tokens(), old(self).position()),
            ),
        decreases remaining(old(self).tokens(), old(self).position()), 1nat,
    {
        let token_kind = match self.current() {
            Some(token) => token.kind,
            None => {
                return Err(Error::UnexpectedEndOfInput { context: Expected::Operand });
            },
        };
        match token_kind {
            TokenType::Identifier => {
                if let Some(next) = self.peek(1) {
                    if next.kind == TokenType::ParenOpen {
                        return self.parse_predicate();
                    }
                }
                match self.consume_expect(TokenType::Identifier, Expected::Operand) {
                    Ok(identifier) => Ok(Expression::Variable { identifier }),
                    Err(e) => Err(e),
                }
            },
            TokenType::ParenOpen => {
                self.consume();
                let expression = match self.parse_expression() {
                    Ok(expression) => expression,
                    Err(e) => {
                        return Err(e);
                    },
                };
                match self.consume_expect(TokenType::ParenClose, Expected::ClosingBracket) {
                    Ok(_) => Ok(expression),
                    Err(e) => Err(e),
                }
            },
            _ => Err(
                Error::UnexpectedToken {
                    expected: Expected::Operand,
                    found: token_kind,
                    position: self.current,
                },
            ),
        }
    }

    /// Parses a predicate: the cursor is at its name, and an opening
    /// bracket follows.
    fn parse_predicate(&mut self) -> (result: Result<Expression, Error>)
        requires
            holds(old(self).tokens(), old(self).position(), TokenType::Identifier),
            holds(old(self).tokens(), old(self).position() + 1, TokenType::ParenOpen),
        ensures
            final(self).tokens() == old(self).tokens(),
            agrees(
                result,
                old(self).position(),
                final(self).position(),
                parse_primary(old(self).tokens(), old(self).position()),
            ),
        decreases remaining(old(self).tokens(), old(self).position()), 0nat,
    {
        let ghost start = self.position();
        let identifier = self.tokens[self.current].value.clone();
        self.consume();
        self.consume();
        let mut arguments: Vec<Expression> = Vec::new();
        if let Some(token) = self.current() {
            if token.kind == TokenType::ParenClose {
                self.consume();
                let predicate = Expression::Predicate { identifier, arguments };
                assert(predicate@->Predicate_arguments =~= Seq::<ExpressionView>::empty());
                return Ok(predicate);
            }
        }
        let ghost goal = parse_arguments(self.tokens(), start + 2);
        proof {
            use_type_invariant(&*self);
            assert(expression_views(arguments@) + Seq::<ExpressionView>::empty()
                =~= Seq::<ExpressionView>::empty());
        }
        loop
            invariant
                self.tokens() == old(self).tokens(),
                start == old(self).position(),
                start + 2 <= self.position() <= self.tokens().len(),
                holds(self.tokens(), start, TokenType::Identifier),
                holds(self.tokens(), start + 1, TokenType::ParenOpen),
                !holds(self.tokens(), start + 2, TokenType::ParenClose),
                identifier@ == self.tokens()[start as int].value,
                goal == parse_arguments(self.tokens(), start + 2),
                match parse_arguments(self.tokens(), self.position()) {
                    Ok((others, more)) => goal == Ok::<(Seq<ExpressionView>, nat), Error>(
                        (
                            expression_views(arguments@) + others,
                            (self.position() - start - 2 + more) as nat,
                        ),
                    ),
                    Err(e) => goal == Err::<(Seq<ExpressionView>, nat), Error>(e),
                },
            decreases remaining(self.tokens(), self.position()),
        {
            let ghost seen = expression_views(arguments@);
            let argument = match self.parse_primary_expression() {
                Ok(argument) => argument,
                Err(e) => {
                    return Err(e);
                },
            };
            let ghost first = argument@;
            arguments.push(argument);
            proof {
                use_type_invariant(&*self);
                assert(expression_views(arguments@) =~= seen.push(first));
            }
            let closes = match self.current() {
                Some(token) => match token.kind {
                    TokenType::ParenClose => true,
                    TokenType::Comma => false,
                    _ => {
                        return Err(
                            Error::UnexpectedToken {
                                expected: Expected::ClosingBracket,
                                found: token.kind,
                                position: self.current,
                            },
                        );
                    },
                },
                None => {
                    return Err(Error::UnexpectedEndOfInput { context: Expected::ClosingBracket });
                },
            };
            self.consume();
            if closes {
                let predicate = Expression::Predicate { identifier, arguments };
                proof {
                    assert(seen + seq![first] =~= seen.push(first));
                    assert(predicate@->Predicate_arguments =~= seen.push(first));
                }
                return Ok(predicate);
            }
            proof {
                match parse_arguments(self.tokens(), self.position()) {
                    Ok((others, more)) => {
                        assert(seen + (seq![first] + others) =~= seen.push(first) + others);
                    },
                    Err(e) => {},
                }
            }
        }
    }

    /// The token `offset` places behind the one under the cursor, if the
    /// tokens reach that far.
    fn peek(&self, offset: usize) -> (token: Option<&Token>)
        ensures
            match token {
                Some(t) => self.position() + offset < self.tokens().len() && t@
                    == self.tokens()[self.position() + offset],
                None => self.position() + offset >= self.tokens().len(),
            },
    {
        proof {
            use_type_invariant(self);
        }
        if offset < self.tokens.len() - self.current {
            Some(&self.tokens[self.current + offset])
        } else {
            None
        }
    }

    /// The token under the cursor, if the tokens have not run out.
    fn current(&self) -> (token: Option<&Token>)
        ensures
            match token {
                Some(t) => self.position() < self.tokens().len() && t@
                    == self.tokens()[self.position() as int],
                None => self.position() >= self.tokens().len(),
            },
    {
        self.peek(0)
    }

    /// Steps over the token under the cursor.
    fn consume(&mut self)
        requires
            old(self).position() < old(self).tokens().len(),
        ensures
            final(self).tokens() == old(self).tokens(),
            final(self).position() == old(self).position() + 1,
    {
        assert(self.current < self.tokens.len());
        self.current += 1;
    }

    /// Steps over the token under the cursor and returns its text, if it is
    /// of kind `kind`; else reports that `expected` is missing.
    fn consume_expect(&mut self, kind: TokenType, expected: Expected) -> (result: Result<
        String,
        Error,
    >)
        ensures
            final(self).tokens() == old(self).tokens(),
            if holds(old(self).tokens(), old(self).position(), kind) {
                &&& result matches Ok(value)
                &&& value@ == old(self).tokens()[old(self).position() as int].value
                &&& final(self).position() == old(self).position() + 1
            } else {
                &&& result == Err::<String, Error>(
                    unexpected(old(self).tokens(), old(self).position(), expected),
                )
                &&& final(self).position() == old(self).position()
            },
    {
        let (found, value) = match self.current() {
            Some(token) => (token.kind, token.value.clone()),
            None => {
                return Err(Error::UnexpectedEndOfInput { context: expected });
            },
        };
        if found == kind {
            self.consume();
            Ok(value)
        } else {
            Err(Error::UnexpectedToken { expected, found, position: self.current })
        }
    }
}

} // verus!
