//! The two measures that the drawing takes of a formula: how wide a node's
//! own label is, and how tall the whole tree stands.

use crate::ast::parser::{Expression, ExpressionView};
use crate::text::byte_len;
use vstd::prelude::*;
use vstd::utf8::encode_utf8;

verus! {

/// The width of one character of a label.
pub const CHAR_WIDTH: usize = 8;

/// The width that a quantifier's symbol takes beside its variable.
pub const QUANTIFIER_WIDTH: usize = 10;

/// The height of one row of nodes.
pub const ELT_HEIGHT: usize = 20;

/// The length of `text` in bytes of UTF-8, which is what a label's width
/// is counted in.
pub open spec fn byte_length(text: Seq<char>) -> nat {
    encode_utf8(text).len()
}

/// The width of the label of the root of `e`. An operator takes one
/// character, whatever stands under it.
pub open spec fn text_width_of(e: ExpressionView) -> nat {
    match e {
        ExpressionView::Binary { .. } => CHAR_WIDTH as nat,
        ExpressionView::Unary { .. } => CHAR_WIDTH as nat,
        ExpressionView::Predicate { identifier, .. } => (byte_length(identifier)
            * CHAR_WIDTH) as nat,
        ExpressionView::Variable { identifier } => (byte_length(identifier) * CHAR_WIDTH) as nat,
        ExpressionView::Quantifier { variable, .. } => (byte_length(variable) * CHAR_WIDTH
            + QUANTIFIER_WIDTH) as nat,
    }
}

/// The larger of two numbers.
pub open spec fn larger(a: nat, b: nat) -> nat {
    if a >= b {
        a
    } else {
        b
    }
}

/// The height of `e`: one row for its root, on top of its tallest child.
pub open spec fn height_of(e: ExpressionView) -> nat
    decreases e, 0nat,
{
    let below: nat = match e {
        ExpressionView::Binary { left, right, .. } => larger(height_of(*left), height_of(*right)),
        ExpressionView::Predicate { arguments, .. } => tallest(arguments, arguments.len()),
        ExpressionView::Quantifier { formula, .. } => height_of(*formula),
        ExpressionView::Unary { expression, .. } => height_of(*expression),
        ExpressionView::Variable { .. } => 0,
    };
    below + ELT_HEIGHT as nat
}

/// The height of the tallest of the first `n` of `expressions`, and 0 if
/// there is none.
pub open spec fn tallest(expressions: Seq<ExpressionView>, n: nat) -> nat
    decreases expressions, n,
{
    if n == 0 || n > expressions.len() {
        0
    } else {
        larger(tallest(expressions, (n - 1) as nat), height_of(expressions[n - 1]))
    }
}

/// None of the first `n` of `expressions` is taller than the tallest of them.
pub proof fn lemma_tallest_bounds(expressions: Seq<ExpressionView>, n: nat, i: int)
    requires
        0 <= i < n <= expressions.len(),
    ensures
        height_of(expressions[i]) <= tallest(expressions, n),
    decreases n,
{
    if i < n - 1 {
        lemma_tallest_bounds(expressions, (n - 1) as nat, i);
    }
}

/// The number of rows that `e` takes: one for its root, and below it as
/// many as its deepest child takes.
pub open spec fn depth_of(e: ExpressionView) -> nat
    decreases e, 0nat,
{
    let below: nat = match e {
        ExpressionView::Binary { left, right, .. } => larger(depth_of(*left), depth_of(*right)),
        ExpressionView::Predicate { arguments, .. } => deepest(arguments, arguments.len()),
        ExpressionView::Quantifier { formula, .. } => depth_of(*formula),
        ExpressionView::Unary { expression, .. } => depth_of(*expression),
        ExpressionView::Variable { .. } => 0,
    };
    below + 1
}

/// The depth of the deepest of the first `n` of `expressions`, and 0 if
/// there is none.
pub open spec fn deepest(expressions: Seq<ExpressionView>, n: nat) -> nat
    decreases expressions, n,
{
    if n == 0 || n > expressions.len() {
        0
    } else {
        larger(deepest(expressions, (n - 1) as nat), depth_of(expressions[n - 1]))
    }
}

/// Every formula takes at least the row of its root.
pub proof fn lemma_depth_positive(e: ExpressionView)
    ensures
        depth_of(e) >= 1,
{
}

/// None of the first `n` of `expressions` is deeper than the deepest of them.
pub proof fn lemma_deepest_bounds(expressions: Seq<ExpressionView>, n: nat, i: int)
    requires
        0 <= i < n <= expressions.len(),
    ensures
        depth_of(expressions[i]) <= deepest(expressions, n),
    decreases n,
{
    if i < n - 1 {
        lemma_deepest_bounds(expressions, (n - 1) as nat, i);
    }
}

/// The height of a formula is its number of rows times the height of a row.
pub proof fn lemma_height_counts_rows(e: ExpressionView)
    ensures
        height_of(e) == depth_of(e) * ELT_HEIGHT,
    decreases e, 0nat,
{
    match e {
        ExpressionView::Binary { left, right, .. } => {
            lemma_height_counts_rows(*left);
            lemma_height_counts_rows(*right);
        },
        ExpressionView::Predicate { arguments, .. } => {
            lemma_tallest_counts_rows(arguments, arguments.len());
        },
        ExpressionView::Quantifier { formula, .. } => {
            lemma_height_counts_rows(*formula);
        },
        ExpressionView::Unary { expression, .. } => {
            lemma_height_counts_rows(*expression);
        },
        ExpressionView::Variable { .. } => {},
    }
}

/// The tallest of some formulas is the deepest of them.
pub proof fn lemma_tallest_counts_rows(expressions: Seq<ExpressionView>, n: nat)
    requires
        n <= expressions.len(),
    ensures
        tallest(expressions, n) == deepest(expressions, n) * ELT_HEIGHT,
    decreases expressions, n,
{
    if n > 0 {
        lemma_tallest_counts_rows(expressions, (n - 1) as nat);
        lemma_height_counts_rows(expressions[n - 1]);
    }
}

/// What can be drawn as a node of the tree.
pub trait Drawable {
    /// The height that `height` returns.
    spec fn drawn_height(&self) -> nat;

    /// The width that `text_width` returns.
    spec fn drawn_text_width(&self) -> nat;

    /// The height of the tree under this node, rows of `ELT_HEIGHT`.
    fn height(&self) -> (h: usize)
        requires
            self.drawn_height() <= usize::MAX,
        ensures
            h == self.drawn_height(),
    ;

    /// The width of this node's own label.
    fn text_width(&self) -> (w: usize)
        requires
            self.drawn_text_width() <= usize::MAX,
        ensures
            w == self.drawn_text_width(),
    ;
}

impl Drawable for Expression {
    open spec fn drawn_height(&self) -> nat {
        height_of(self@)
    }

    open spec fn drawn_text_width(&self) -> nat {
        text_width_of(self@)
    }

    fn height(&self) -> (h: usize)
        decreases self,
    {
        let below: usize = match self {
            Expression::Binary { left, right, .. } => {
                let l = left.height();
                let r = right.height();
                if l >= r {
                    l
                } else {
                    r
                }
            },
            Expression::Predicate { arguments, .. } => {
                let mut tallest_so_far: usize = 0;
                let mut i: usize = 0;
                while i < arguments.len()
                    invariant
                        i <= arguments.len(),
                        self matches Expression::Predicate { arguments: own, .. } && own
                            == arguments,
                        self@ matches ExpressionView::Predicate { arguments: views, .. }
                            && views.len() == arguments.len() && tallest_so_far == tallest(
                            views,
                            i as nat,
                        ) && (forall|j: int|
                            0 <= j < views.len() ==> views[j] == (#[trigger] arguments@[j])@)
                            && ELT_HEIGHT + tallest(views, views.len()) <= usize::MAX,
                    decreases arguments.len() - i,
                {
                    proof {
                        let views = self@->Predicate_arguments;
                        lemma_tallest_bounds(views, views.len(), i as int);
                    }
                    let h = arguments[i].height();
                    if h > tallest_so_far {
                        tallest_so_far = h;
                    }
                    i += 1;
                }
                tallest_so_far
            },
            Expression::Quantifier { formula, .. } => formula.height(),
            Expression::Unary { expression, .. } => expression.height(),
            Expression::Variable { .. } => 0,
        };
        below + ELT_HEIGHT
    }

    fn text_width(&self) -> (w: usize) {
        match self {
            Expression::Binary { .. } => CHAR_WIDTH,
            Expression::Predicate { identifier, .. } => byte_len(identifier.as_str()) * CHAR_WIDTH,
            Expression::Quantifier { variable, .. } => byte_len(variable.as_str()) * CHAR_WIDTH
                + QUANTIFIER_WIDTH,
            Expression::Unary { .. } => CHAR_WIDTH,
            Expression::Variable { identifier } => byte_len(identifier.as_str()) * CHAR_WIDTH,
        }
    }
}

/// The width of the label of the root of `expression`, if `usize` can
/// count it.
pub fn checked_text_width(expression: &Expression) -> (width: Option<usize>)
    ensures
        match width {
            Some(w) => w == text_width_of(expression@),
            None => text_width_of(expression@) > usize::MAX,
        },
{
    match expression {
        Expression::Binary { .. } => Some(CHAR_WIDTH),
        Expression::Predicate { identifier, .. } => byte_len(identifier.as_str()).checked_mul(
            CHAR_WIDTH,
        ),
        Expression::Quantifier { variable, .. } => match byte_len(variable.as_str()).checked_mul(
            CHAR_WIDTH,
        ) {
            Some(letters) => letters.checked_add(QUANTIFIER_WIDTH),
            None => None,
        },
        Expression::Unary { .. } => Some(CHAR_WIDTH),
        Expression::Variable { identifier } => byte_len(identifier.as_str()).checked_mul(
            CHAR_WIDTH,
        ),
    }
}

/// The number of rows that `expression` takes, if `usize` can count them.
pub fn checked_depth(expression: &Expression) -> (depth: Option<usize>)
    ensures
        match depth {
            Some(d) => d == depth_of(expression@),
            None => depth_of(expression@) > usize::MAX,
        },
    decreases expression,
{
    let below: usize = match expression {
        Expression::Binary { left, right, .. } => {
            let l = match checked_depth(left) {
                Some(l) => l,
                None => {
                    return None;
                },
            };
            let r = match checked_depth(right) {
                Some(r) => r,
                None => {
                    return None;
                },
            };
            if l >= r {
                l
            } else {
                r
            }
        },
        Expression::Predicate { arguments, .. } => {
            let mut deepest_so_far: usize = 0;
            let mut i: usize = 0;
            while i < arguments.len()
                invariant
                    i <= arguments.len(),
                    expression matches Expression::Predicate { arguments: own, .. } && own
                        == arguments,
                    expression@ matches ExpressionView::Predicate { arguments: views, .. }
                        && views.len() == arguments.len() && deepest_so_far == deepest(
                        views,
                        i as nat,
                    ) && (forall|j: int|
                        0 <= j < views.len() ==> views[j] == (#[trigger] arguments@[j])@),
                decreases arguments.len() - i,
            {
                proof {
                    let views = expression@->Predicate_arguments;
                    lemma_deepest_bounds(views, views.len(), i as int);
                }
                let d = match checked_depth(&arguments[i]) {
                    Some(d) => d,
                    None => {
                        return None;
                    },
                };
                if d > deepest_so_far {
                    deepest_so_far = d;
                }
                i += 1;
            }
            deepest_so_far
        },
        Expression::Quantifier { formula, .. } => match checked_depth(formula) {
            Some(d) => d,
            None => {
                return None;
            },
        },
        Expression::Unary { expression: operand, .. } => match checked_depth(operand) {
            Some(d) => d,
            None => {
                return None;
            },
        },
        Expression::Variable { .. } => 0,
    };
    below.checked_add(1)
}

} // verus!
