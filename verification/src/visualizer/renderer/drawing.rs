//! What holds of every drawing: how many labels and lines it has, and how
//! large its canvas is.

use crate::ast::parser::{size_of, sizes_among, ExpressionView};
use crate::visualizer::drawable::{
    deepest, depth_of, height_of, larger, lemma_deepest_bounds, lemma_depth_positive,
    lemma_height_counts_rows,
};
use crate::visualizer::renderer::svg_renderer::{
    canvas_height, canvas_width, lemma_visit_shrinks, line_between, lowest_of, node_primitives,
    primitives_of, text_of, visit_order, Primitive,
};
use crate::visualizer::tree::{
    full_width_of, layout, nodes_among, nodes_in, offset_of, NodeView, X_SEPARATION,
    Y_SEPARATION,
};
use vstd::prelude::*;

verus! {

/// The number of labels among `primitives`.
pub open spec fn texts_in(primitives: Seq<Primitive>) -> nat
    decreases primitives.len(),
{
    if primitives.len() == 0 {
        0
    } else {
        texts_in(primitives.drop_last()) + if primitives.last() is Text {
            1nat
        } else {
            0nat
        }
    }
}

/// The number of lines among `primitives`.
pub open spec fn lines_in(primitives: Seq<Primitive>) -> nat
    decreases primitives.len(),
{
    if primitives.len() == 0 {
        0
    } else {
        lines_in(primitives.drop_last()) + if primitives.last() is Line {
            1nat
        } else {
            0nat
        }
    }
}

/// The labels and lines of two runs of primitives are those of the one
/// and those of the other.
pub proof fn lemma_counts_concat(a: Seq<Primitive>, b: Seq<Primitive>)
    ensures
        texts_in(a + b) == texts_in(a) + texts_in(b),
        lines_in(a + b) == lines_in(a) + lines_in(b),
    decreases b.len(),
{
    if b.len() == 0 {
        assert(a + b =~= a);
    } else {
        assert((a + b).drop_last() =~= a + b.drop_last());
        assert((a + b).last() == b.last());
        lemma_counts_concat(a, b.drop_last());
    }
}

/// A run of `n` lines holds no label and `n` lines.
proof fn lemma_counts_of_lines(lines: Seq<Primitive>)
    requires
        forall|i: int| 0 <= i < lines.len() ==> lines[i] is Line,
    ensures
        texts_in(lines) == 0,
        lines_in(lines) == lines.len(),
    decreases lines.len(),
{
    if lines.len() > 0 {
        lemma_counts_of_lines(lines.drop_last());
    }
}

/// A visit of a node draws one label and a line for each child.
pub proof fn lemma_counts_of_node(node: NodeView)
    ensures
        texts_in(node_primitives(node)) == 1,
        lines_in(node_primitives(node)) == node.children.len(),
{
    let label = seq![text_of(node)];
    let lines = Seq::new(node.children.len(), |i: int| line_between(node, node.children[i]));
    lemma_counts_of_lines(lines);
    lemma_counts_concat(label, lines);
    assert(label.drop_last() =~= Seq::<Primitive>::empty());
    assert(texts_in(Seq::<Primitive>::empty()) == 0);
    assert(lines_in(Seq::<Primitive>::empty()) == 0);
}

/// What visits of two runs of nodes draw is what the one draws and what
/// the other draws.
pub proof fn lemma_primitives_concat(a: Seq<NodeView>, b: Seq<NodeView>)
    ensures
        primitives_of(a + b) == primitives_of(a) + primitives_of(b),
    decreases b.len(),
{
    if b.len() == 0 {
        assert(a + b =~= a);
        assert(primitives_of(a) + primitives_of(b) =~= primitives_of(a));
    } else {
        assert((a + b).drop_last() =~= a + b.drop_last());
        assert((a + b).last() == b.last());
        lemma_primitives_concat(a, b.drop_last());
        assert(primitives_of(a + b) =~= primitives_of(a) + primitives_of(b));
    }
}

/// A breadth-first walk visits every node under the queue once, draws one
/// label for each, and one line for each that was not in the queue at the
/// start.
pub proof fn lemma_walk_counts(queue: Seq<NodeView>)
    ensures
        visit_order(queue).len() == nodes_among(queue),
        texts_in(primitives_of(visit_order(queue))) == nodes_among(queue),
        lines_in(primitives_of(visit_order(queue))) + queue.len() == nodes_among(queue),
    decreases nodes_among(queue),
{
    if queue.len() == 0 {
        assert(primitives_of(visit_order(queue)) =~= Seq::<Primitive>::empty());
    } else {
        let first = queue[0];
        let next = queue.drop_first() + first.children;
        lemma_visit_shrinks(queue);
        lemma_walk_counts(next);
        lemma_primitives_concat(seq![first], visit_order(next));
        lemma_counts_concat(primitives_of(seq![first]), primitives_of(visit_order(next)));
        lemma_counts_of_node(first);
        assert(seq![first].drop_last() =~= Seq::<NodeView>::empty());
        assert(primitives_of(Seq::<NodeView>::empty()) =~= Seq::<Primitive>::empty());
        assert(primitives_of(seq![first]) =~= node_primitives(first));
    }
}

/// Trees that have as many nodes as formulas, one for one, have as many
/// nodes in all.
proof fn lemma_nodes_match(expressions: Seq<ExpressionView>, nodes: Seq<NodeView>)
    requires
        nodes.len() == expressions.len(),
        forall|i: int|
            0 <= i < nodes.len() ==> nodes_in(#[trigger] nodes[i]) == size_of(expressions[i]),
    ensures
        nodes_among(nodes) == sizes_among(expressions),
    decreases nodes.len(),
{
    if nodes.len() > 0 {
        lemma_nodes_match(expressions.drop_last(), nodes.drop_last());
    }
}

/// The placed tree of a formula has a node for each node of the formula.
pub proof fn lemma_layout_keeps_nodes(e: ExpressionView, y: nat, x: nat)
    ensures
        nodes_in(layout(e, y, x)) == size_of(e),
    decreases e,
{
    let node = layout(e, y, x);
    let row = y + Y_SEPARATION as nat;
    match e {
        ExpressionView::Binary { left, right, .. } => {
            lemma_layout_keeps_nodes(*left, row, x);
            lemma_layout_keeps_nodes(*right, row, x + full_width_of(*left) + X_SEPARATION as nat);
            lemma_nodes_match(seq![*left, *right], node.children);
            assert(seq![*left, *right].drop_last() =~= seq![*left]);
            assert(seq![*left].drop_last() =~= Seq::<ExpressionView>::empty());
            assert(sizes_among(Seq::<ExpressionView>::empty()) == 0);
            assert(sizes_among(seq![*left]) == size_of(*left));
        },
        ExpressionView::Predicate { arguments, .. } => {
            assert forall|i: int| 0 <= i < node.children.len() implies nodes_in(
                #[trigger] node.children[i],
            ) == size_of(arguments[i]) by {
                lemma_layout_keeps_nodes(arguments[i], row, x + offset_of(arguments, i as nat));
            }
            lemma_nodes_match(arguments, node.children);
        },
        ExpressionView::Quantifier { formula, .. } => {
            lemma_layout_keeps_nodes(*formula, row, x);
            lemma_nodes_match(seq![*formula], node.children);
            assert(seq![*formula].drop_last() =~= Seq::<ExpressionView>::empty());
            assert(sizes_among(Seq::<ExpressionView>::empty()) == 0);
        },
        ExpressionView::Unary { expression, .. } => {
            lemma_layout_keeps_nodes(*expression, row, x);
            lemma_nodes_match(seq![*expression], node.children);
            assert(seq![*expression].drop_last() =~= Seq::<ExpressionView>::empty());
            assert(sizes_among(Seq::<ExpressionView>::empty()) == 0);
        },
        ExpressionView::Variable { .. } => {
            assert(nodes_among(node.children) == 0);
        },
    }
}

/// The drawing of a formula holds one label for each node of the formula
/// and one line for each node but the root.
pub proof fn lemma_drawing_counts(e: ExpressionView)
    ensures
        texts_in(primitives_of(visit_order(seq![layout(e, 0, 0)]))) == size_of(e),
        lines_in(primitives_of(visit_order(seq![layout(e, 0, 0)]))) == size_of(e) - 1,
{
    let root = layout(e, 0, 0);
    lemma_layout_keeps_nodes(e, 0, 0);
    lemma_walk_counts(seq![root]);
    assert(seq![root].drop_last() =~= Seq::<NodeView>::empty());
    assert(nodes_among(Seq::<NodeView>::empty()) == 0);
    assert(nodes_among(seq![root]) == nodes_in(root));
}

/// The row of the lowest node of the tree under `node`.
pub open spec fn bottom_of(node: NodeView) -> nat
    decreases node,
{
    larger(node.y, bottom_among(node.children))
}

/// The row of the lowest node of the trees under `nodes`, and 0 if there
/// is none.
pub open spec fn bottom_among(nodes: Seq<NodeView>) -> nat
    decreases nodes,
{
    if nodes.len() == 0 {
        0
    } else {
        larger(bottom_among(nodes.drop_last()), bottom_of(nodes.last()))
    }
}

/// The lowest node of two runs of trees is the lower of their lowest.
pub proof fn lemma_bottom_among_concat(a: Seq<NodeView>, b: Seq<NodeView>)
    ensures
        bottom_among(a + b) == larger(bottom_among(a), bottom_among(b)),
    decreases b.len(),
{
    if b.len() == 0 {
        assert(a + b =~= a);
    } else {
        assert((a + b).drop_last() =~= a + b.drop_last());
        assert((a + b).last() == b.last());
        lemma_bottom_among_concat(a, b.drop_last());
    }
}

/// The lowest of two runs of nodes is the lower of their lowest.
pub proof fn lemma_lowest_concat(a: Seq<NodeView>, b: Seq<NodeView>)
    ensures
        lowest_of(a + b) == larger(lowest_of(a), lowest_of(b)),
    decreases b.len(),
{
    if b.len() == 0 {
        assert(a + b =~= a);
    } else {
        assert((a + b).drop_last() =~= a + b.drop_last());
        assert((a + b).last() == b.last());
        lemma_lowest_concat(a, b.drop_last());
    }
}

/// A breadth-first walk comes by the lowest node under the queue.
pub proof fn lemma_walk_reaches_bottom(queue: Seq<NodeView>)
    ensures
        lowest_of(visit_order(queue)) == bottom_among(queue),
    decreases nodes_among(queue),
{
    if queue.len() > 0 {
        let first = queue[0];
        let next = queue.drop_first() + first.children;
        lemma_visit_shrinks(queue);
        lemma_walk_reaches_bottom(next);
        lemma_lowest_concat(seq![first], visit_order(next));
        lemma_bottom_among_concat(queue.drop_first(), first.children);
        lemma_bottom_among_concat(seq![first], queue.drop_first());
        assert(seq![first] + queue.drop_first() =~= queue);
        assert(seq![first].drop_last() =~= Seq::<NodeView>::empty());
        assert(lowest_of(Seq::<NodeView>::empty()) == 0);
        assert(bottom_among(Seq::<NodeView>::empty()) == 0);
        assert(lowest_of(seq![first]) == first.y);
        assert(bottom_among(seq![first]) == bottom_of(first));
    }
}

/// Trees that stand one row below `y - Y_SEPARATION` and go as deep as
/// their formulas go down as far as the deepest of the formulas.
proof fn lemma_bottoms_match(
    expressions: Seq<ExpressionView>,
    nodes: Seq<NodeView>,
    n: nat,
    row: nat,
)
    requires
        n <= nodes.len() == expressions.len(),
        forall|i: int|
            0 <= i < nodes.len() ==> bottom_of(#[trigger] nodes[i]) == row + (depth_of(
                expressions[i],
            ) - 1) * Y_SEPARATION,
    ensures
        bottom_among(nodes.take(n as int)) == if n == 0 {
            0
        } else {
            row + (deepest(expressions, n) - 1) * Y_SEPARATION
        },
    decreases n,
{
    if n > 0 {
        lemma_bottoms_match(expressions, nodes, (n - 1) as nat, row);
        assert(nodes.take(n as int).drop_last() =~= nodes.take(n - 1));
        assert(nodes.take(n as int).last() == nodes[n - 1]);
        lemma_depth_positive(expressions[n - 1]);
        if n > 1 {
            lemma_deepest_bounds(expressions, (n - 1) as nat, 0);
            lemma_depth_positive(expressions[0]);
        }
    }
}

/// The placed tree of a formula goes down one row for each row of the
/// formula below the first.
pub proof fn lemma_layout_bottom(e: ExpressionView, y: nat, x: nat)
    ensures
        bottom_of(layout(e, y, x)) == y + (depth_of(e) - 1) * Y_SEPARATION,
    decreases e,
{
    let node = layout(e, y, x);
    let row = y + Y_SEPARATION as nat;
    match e {
        ExpressionView::Binary { left, right, .. } => {
            lemma_layout_bottom(*left, row, x);
            lemma_layout_bottom(*right, row, x + full_width_of(*left) + X_SEPARATION as nat);
            lemma_depth_positive(*left);
            lemma_depth_positive(*right);
            assert(node.children.drop_last() =~= seq![node.children[0]]);
            assert(seq![node.children[0]].drop_last() =~= Seq::<NodeView>::empty());
            assert(bottom_among(Seq::<NodeView>::empty()) == 0);
            assert(bottom_among(seq![node.children[0]]) == bottom_of(node.children[0]));
        },
        ExpressionView::Predicate { arguments, .. } => {
            assert forall|i: int| 0 <= i < node.children.len() implies bottom_of(
                #[trigger] node.children[i],
            ) == row + (depth_of(arguments[i]) - 1) * Y_SEPARATION by {
                lemma_layout_bottom(arguments[i], row, x + offset_of(arguments, i as nat));
            }
            lemma_bottoms_match(arguments, node.children, arguments.len(), row);
            assert(node.children.take(arguments.len() as int) =~= node.children);
        },
        ExpressionView::Quantifier { formula, .. } => {
            lemma_layout_bottom(*formula, row, x);
            lemma_depth_positive(*formula);
            assert(node.children.drop_last() =~= Seq::<NodeView>::empty());
            assert(bottom_among(Seq::<NodeView>::empty()) == 0);
        },
        ExpressionView::Unary { expression, .. } => {
            lemma_layout_bottom(*expression, row, x);
            lemma_depth_positive(*expression);
            assert(node.children.drop_last() =~= Seq::<NodeView>::empty());
            assert(bottom_among(Seq::<NodeView>::empty()) == 0);
        },
        ExpressionView::Variable { .. } => {
            assert(bottom_among(node.children) == 0);
        },
    }
}

/// The canvas of the drawing of a formula is as wide as the formula's box
/// and twice as high as the formula: a row of the drawing takes two rows'
/// height.
pub proof fn lemma_canvas_size(e: ExpressionView)
    ensures
        canvas_width(layout(e, 0, 0)) == full_width_of(e),
        canvas_height(layout(e, 0, 0)) == depth_of(e) * Y_SEPARATION,
        canvas_height(layout(e, 0, 0)) == 2 * height_of(e),
{
    let root = layout(e, 0, 0);
    lemma_layout_bottom(e, 0, 0);
    lemma_walk_reaches_bottom(seq![root]);
    lemma_height_counts_rows(e);
    lemma_depth_positive(e);
    assert(seq![root].drop_last() =~= Seq::<NodeView>::empty());
    assert(bottom_among(Seq::<NodeView>::empty()) == 0);
    assert(bottom_among(seq![root]) == bottom_of(root));
}

} // verus!
