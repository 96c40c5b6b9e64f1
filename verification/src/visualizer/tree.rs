//! Places the nodes of a formula on a plane.
//!
//! Every node gets a box as wide as its subtree needs. Children stand one
//! row below their parent, side by side from the parent's left edge on.

use crate::ast::parser::{
    binary_glyph, quantifier_glyph, unary_glyph, Expression, ExpressionView,
};
use crate::visualizer::drawable::{
    checked_text_width, depth_of, larger, lemma_deepest_bounds, lemma_depth_positive,
    text_width_of, Drawable,
};
use vstd::prelude::*;

verus! {

/// The gap between two boxes that stand side by side.
pub const X_SEPARATION: usize = 20;

/// The distance from one row to the next.
pub const Y_SEPARATION: usize = 40;

/// A node with its place: the box from `x` to `x + full_width` holds the
/// node's whole subtree, and `width` of it is the label's own.
#[derive(Debug, PartialEq, Eq)]
pub struct Node {
    pub text: String,
    pub children: Vec<Node>,
    pub width: usize,
    pub full_width: usize,
    pub y: usize,
    pub x: usize,
}

/// A placed node as the contracts see it.
pub struct NodeView {
    pub text: Seq<char>,
    pub children: Seq<NodeView>,
    pub width: nat,
    pub full_width: nat,
    pub y: nat,
    pub x: nat,
}

impl Node {
    /// The placed tree that this node holds.
    pub open spec fn model(&self) -> NodeView
        decreases self,
    {
        NodeView {
            text: self.text@,
            children: Seq::new(
                self.children@.len(),
                |i: int|
                    if 0 <= i < self.children@.len() {
                        self.children@[i].model()
                    } else {
                        arbitrary()
                    },
            ),
            width: self.width as nat,
            full_width: self.full_width as nat,
            y: self.y as nat,
            x: self.x as nat,
        }
    }
}

impl View for Node {
    type V = NodeView;

    open spec fn view(&self) -> NodeView {
        self.model()
    }
}

/// The number of nodes of the tree under `node`, itself included.
pub open spec fn nodes_in(node: NodeView) -> nat
    decreases node,
{
    1 + nodes_among(node.children)
}

/// The number of nodes of the trees under `nodes`, added up.
pub open spec fn nodes_among(nodes: Seq<NodeView>) -> nat
    decreases nodes,
{
    if nodes.len() == 0 {
        0
    } else {
        nodes_among(nodes.drop_last()) + nodes_in(nodes.last())
    }
}

/// The nodes of two runs of trees are those of the one and those of the other.
pub proof fn lemma_nodes_among_concat(a: Seq<NodeView>, b: Seq<NodeView>)
    ensures
        nodes_among(a + b) == nodes_among(a) + nodes_among(b),
    decreases b.len(),
{
    if b.len() == 0 {
        assert(a + b =~= a);
    } else {
        assert((a + b).drop_last() =~= a + b.drop_last());
        assert((a + b).last() == b.last());
        lemma_nodes_among_concat(a, b.drop_last());
    }
}

/// A placed formula.
#[derive(Debug, PartialEq, Eq)]
pub struct Tree {
    pub root: Node,
}

/// The label of the root of `e`: a name, an operator's symbol, or a
/// quantifier's symbol with its variable.
pub open spec fn label_of(e: ExpressionView) -> Seq<char> {
    match e {
        ExpressionView::Binary { operator, .. } => seq![binary_glyph(operator)],
        ExpressionView::Predicate { identifier, .. } => identifier,
        ExpressionView::Quantifier { operator, variable, .. } => seq![quantifier_glyph(operator)]
            + variable,
        ExpressionView::Unary { operator, .. } => seq![unary_glyph(operator)],
        ExpressionView::Variable { identifier } => identifier,
    }
}

/// The width of the box of `e`: what its label takes or what its children
/// take side by side, whichever is more.
pub open spec fn full_width_of(e: ExpressionView) -> nat
    decreases e, 0nat, 0nat,
{
    let below: nat = match e {
        ExpressionView::Binary { left, right, .. } => full_width_of(*left) + full_width_of(*right)
            + X_SEPARATION as nat,
        ExpressionView::Predicate { arguments, .. } => row_width(arguments, arguments.len()),
        ExpressionView::Quantifier { formula, .. } => full_width_of(*formula),
        ExpressionView::Unary { expression, .. } => full_width_of(*expression),
        ExpressionView::Variable { .. } => 0,
    };
    larger(text_width_of(e), below)
}

/// The widths of the boxes of the first `n` of `expressions`, added up.
pub open spec fn widths_sum(expressions: Seq<ExpressionView>, n: nat) -> nat
    decreases expressions, n, 0nat,
{
    if n == 0 || n > expressions.len() {
        0
    } else {
        widths_sum(expressions, (n - 1) as nat) + full_width_of(expressions[n - 1])
    }
}

/// The width that the first `n` of `expressions` take side by side, with
/// a gap between neighbours: nothing if there is none.
pub open spec fn row_width(expressions: Seq<ExpressionView>, n: nat) -> nat
    decreases expressions, n, 1nat,
{
    if n == 0 {
        0
    } else {
        (widths_sum(expressions, n) + (n - 1) * X_SEPARATION) as nat
    }
}

/// How far to the right of the first of `expressions` the one at `i` starts.
pub open spec fn offset_of(expressions: Seq<ExpressionView>, i: nat) -> nat {
    (widths_sum(expressions, i) + i * X_SEPARATION) as nat
}

/// The placed tree of `e` with its root at row `y` and its box starting at `x`.
pub open spec fn layout(e: ExpressionView, y: nat, x: nat) -> NodeView
    decreases e,
{
    let row = y + Y_SEPARATION as nat;
    NodeView {
        text: label_of(e),
        children: match e {
            ExpressionView::Binary { left, right, .. } => seq![
                layout(*left, row, x),
                layout(*right, row, x + full_width_of(*left) + X_SEPARATION as nat),
            ],
            ExpressionView::Predicate { arguments, .. } => Seq::new(
                arguments.len(),
                |i: int|
                    if 0 <= i < arguments.len() {
                        layout(arguments[i], row, x + offset_of(arguments, i as nat))
                    } else {
                        arbitrary()
                    },
            ),
            ExpressionView::Quantifier { formula, .. } => seq![layout(*formula, row, x)],
            ExpressionView::Unary { expression, .. } => seq![layout(*expression, row, x)],
            ExpressionView::Variable { .. } => Seq::empty(),
        },
        width: text_width_of(e),
        full_width: full_width_of(e),
        y,
        x,
    }
}

/// Whether the placed tree of `e` at `(x, y)` can be held in `usize`: its
/// box ends, and its last row stands, at no more than `usize::MAX`.
pub open spec fn fits(e: ExpressionView, y: nat, x: nat) -> bool {
    &&& x + full_width_of(e) <= usize::MAX
    &&& y + (depth_of(e) - 1) * Y_SEPARATION <= usize::MAX
}

/// Each of the first `n` of `expressions` ends inside the row that they make.
pub proof fn lemma_row_holds_each(expressions: Seq<ExpressionView>, n: nat, i: nat)
    requires
        i < n <= expressions.len(),
    ensures
        offset_of(expressions, i) + full_width_of(expressions[i as int]) <= row_width(
            expressions,
            n,
        ),
    decreases n,
{
    if i < n - 1 {
        lemma_row_holds_each(expressions, (n - 1) as nat, i);
    }
}

/// A row of more boxes is no narrower.
pub proof fn lemma_row_grows(expressions: Seq<ExpressionView>, m: nat, n: nat)
    requires
        m <= n <= expressions.len(),
    ensures
        row_width(expressions, m) <= row_width(expressions, n),
    decreases n,
{
    if m < n {
        lemma_row_grows(expressions, m, (n - 1) as nat);
    }
}

/// The box of a formula is at least as wide as its label and never
/// narrower than nothing; a predicate without arguments is exactly as
/// wide as its name.
pub proof fn lemma_full_width_holds_label(e: ExpressionView)
    ensures
        full_width_of(e) >= text_width_of(e),
        full_width_of(e) >= 0,
        e matches ExpressionView::Predicate { arguments, .. } && arguments.len() == 0
            ==> full_width_of(e) == text_width_of(e),
{
    if let ExpressionView::Predicate { arguments, .. } = e {
        if arguments.len() == 0 {
            assert(row_width(arguments, 0) == 0);
        }
    }
}

/// The label of the root of `expression`.
pub fn label(expression: &Expression) -> (text: String)
    ensures
        text@ == label_of(expression@),
{
    match expression {
        Expression::Binary { operator, .. } => String::from_str(operator.symbol()),
        Expression::Predicate { identifier, .. } => identifier.clone(),
        Expression::Quantifier { operator, variable, .. } => {
            let mut text = String::from_str(operator.symbol());
            text.append(variable.as_str());
            text
        },
        Expression::Unary { operator, .. } => String::from_str(operator.symbol()),
        Expression::Variable { identifier } => identifier.clone(),
    }
}

/// The width of the box of `expression`, if `usize` can count it.
pub fn checked_full_width(expression: &Expression) -> (width: Option<usize>)
    ensures
        match width {
            Some(w) => w == full_width_of(expression@),
            None => full_width_of(expression@) > usize::MAX,
        },
    decreases expression,
{
    let own = match checked_text_width(expression) {
        Some(own) => own,
        None => {
            return None;
        },
    };
    let below: usize = match expression {
        Expression::Binary { left, right, .. } => {
            let l = match checked_full_width(left) {
                Some(l) => l,
                None => {
                    return None;
                },
            };
            let r = match checked_full_width(right) {
                Some(r) => r,
                None => {
                    return None;
                },
            };
            match l.checked_add(r) {
                Some(both) => match both.checked_add(X_SEPARATION) {
                    Some(below) => below,
                    None => {
                        return None;
                    },
                },
                None => {
                    return None;
                },
            }
        },
        Expression::Predicate { arguments, .. } => {
            let mut row: usize = 0;
            let mut i: usize = 0;
            while i < arguments.len()
                invariant
                    i <= arguments.len(),
                    expression matches Expression::Predicate { arguments: own, .. } && own
                        == arguments,
                    expression@ matches ExpressionView::Predicate { arguments: views, .. }
                        && views.len() == arguments.len() && row == row_width(views, i as nat)
                        && (forall|j: int|
                        0 <= j < views.len() ==> views[j] == (#[trigger] arguments@[j])@),
                decreases arguments.len() - i,
            {
                proof {
                    let views = expression@->Predicate_arguments;
                    lemma_row_holds_each(views, views.len(), i as nat);
                    lemma_row_grows(views, (i + 1) as nat, views.len());
                }
                let w = match checked_full_width(&arguments[i]) {
                    Some(w) => w,
                    None => {
                        return None;
                    },
                };
                let start = if i == 0 {
                    0
                } else {
                    match row.checked_add(X_SEPARATION) {
                        Some(start) => start,
                        None => {
                            return None;
                        },
                    }
                };
                row = match start.checked_add(w) {
                    Some(row) => row,
                    None => {
                        return None;
                    },
                };
                i += 1;
            }
            row
        },
        Expression::Quantifier { formula, .. } => match checked_full_width(formula) {
            Some(w) => w,
            None => {
                return None;
            },
        },
        Expression::Unary { expression: operand, .. } => match checked_full_width(operand) {
            Some(w) => w,
            None => {
                return None;
            },
        },
        Expression::Variable { .. } => 0,
    };
    if below > own {
        Some(below)
    } else {
        Some(own)
    }
}

impl Tree {
    /// Places `expression` with its root at the origin.
    pub fn from_expression(expression: &Expression) -> (tree: Self)
        requires
            fits(expression@, 0, 0),
        ensures
            tree.root@ == layout(expression@, 0, 0),
    {
        Self { root: Node::from_expression(expression, 0, 0) }
    }
}

impl Node {
    /// Places `expression` with its root at row `start_y` and its box
    /// starting at `start_x`.
    pub fn from_expression(expression: &Expression, start_y: usize, start_x: usize) -> (node: Self)
        requires
            fits(expression@, start_y as nat, start_x as nat),
        ensures
            node@ == layout(expression@, start_y as nat, start_x as nat),
        decreases expression,
    {
        let ghost e = expression@;
        let ghost goal = layout(e, start_y as nat, start_x as nat);
        let mut children: Vec<Node> = Vec::new();
        let text = label(expression);
        let width = expression.text_width();
        let mut full_width = width;
        match expression {
            Expression::Binary { left, right, .. } => {
                proof {
                    lemma_depth_positive(left@);
                    lemma_depth_positive(right@);
                }
                let node_1 = Node::from_expression(left, start_y + Y_SEPARATION, start_x);
                let node_2 = Node::from_expression(
                    right,
                    start_y + Y_SEPARATION,
                    start_x + node_1.full_width + X_SEPARATION,
                );
                let below = node_1.full_width + node_2.full_width + X_SEPARATION;
                if below > full_width {
                    full_width = below;
                }
                children.push(node_1);
                children.push(node_2);
            },
            Expression::Predicate { arguments, .. } => {
                let mut row: usize = 0;
                let mut i: usize = 0;
                while i < arguments.len()
                    invariant
                        i <= arguments.len(),
                        expression matches Expression::Predicate { arguments: own, .. } && own
                            == arguments,
                        e == expression@,
                        fits(e, start_y as nat, start_x as nat),
                        e matches ExpressionView::Predicate { arguments: views, .. }
                            && views.len() == arguments.len() && row == row_width(views, i as nat)
                            && (forall|j: int|
                            0 <= j < views.len() ==> views[j] == (#[trigger] arguments@[j])@)
                            && (forall|j: int|
                            0 <= j < i ==> (#[trigger] children@[j])@ == layout(
                                views[j],
                                start_y as nat + Y_SEPARATION as nat,
                                start_x as nat + offset_of(views, j as nat),
                            )),
                        children@.len() == i,
                    decreases arguments.len() - i,
                {
                    proof {
                        let views = e->Predicate_arguments;
                        lemma_row_holds_each(views, views.len(), i as nat);
                        lemma_deepest_bounds(views, views.len(), i as int);
                        lemma_depth_positive(views[i as int]);
                    }
                    let child_x = if i == 0 {
                        start_x
                    } else {
                        start_x + row + X_SEPARATION
                    };
                    let node = Node::from_expression(
                        &arguments[i],
                        start_y + Y_SEPARATION,
                        child_x,
                    );
                    row = child_x - start_x + node.full_width;
                    children.push(node);
                    i += 1;
                }
                if row > full_width {
                    full_width = row;
                }
            },
            Expression::Quantifier { formula, .. } => {
                proof {
                    lemma_depth_positive(formula@);
                }
                let node = Node::from_expression(formula, start_y + Y_SEPARATION, start_x);
                if node.full_width > full_width {
                    full_width = node.full_width;
                }
                children.push(node);
            },
            Expression::Unary { expression: operand, .. } => {
                proof {
                    lemma_depth_positive(operand@);
                }
                let node = Node::from_expression(operand, start_y + Y_SEPARATION, start_x);
                if node.full_width > full_width {
                    full_width = node.full_width;
                }
                children.push(node);
            },
            Expression::Variable { .. } => {},
        }
        let node = Self { text, children, width, y: start_y, x: start_x, full_width };
        assert(node@.children =~= goal.children);
        node
    }
}

} // verus!
