//! Writes a placed tree as an SVG document: a label for every node and a
//! line for every edge, in breadth-first order.

use crate::ast::parser::{Expression, ExpressionView};
use crate::visualizer::drawable::{
    checked_depth, depth_of, larger, lemma_deepest_bounds, lemma_depth_positive,
};
use crate::visualizer::tree::{
    checked_full_width, full_width_of, layout, lemma_nodes_among_concat, lemma_row_holds_each,
    nodes_among, nodes_in, offset_of, Node, NodeView, Tree, X_SEPARATION, Y_SEPARATION,
};
use vstd::prelude::*;

verus! {

/// The margin above the first row and below the last.
pub const PADDING: usize = 20;

/// The character of the decimal digit `d`.
pub open spec fn digit_of(d: nat) -> char {
    if d == 0 {
        '0'
    } else if d == 1 {
        '1'
    } else if d == 2 {
        '2'
    } else if d == 3 {
        '3'
    } else if d == 4 {
        '4'
    } else if d == 5 {
        '5'
    } else if d == 6 {
        '6'
    } else if d == 7 {
        '7'
    } else if d == 8 {
        '8'
    } else {
        '9'
    }
}

/// `n` in decimal digits, without leading zeros.
pub open spec fn decimal(n: nat) -> Seq<char>
    decreases n,
{
    if n < 10 {
        seq![digit_of(n)]
    } else {
        decimal(n / 10).push(digit_of(n % 10))
    }
}

/// The character of the decimal digit `d`.
fn digit(d: usize) -> (c: char)
    requires
        d < 10,
    ensures
        c == digit_of(d as nat),
{
    match d {
        0 => '0',
        1 => '1',
        2 => '2',
        3 => '3',
        4 => '4',
        5 => '5',
        6 => '6',
        7 => '7',
        8 => '8',
        _ => '9',
    }
}

/// Appends `n` in decimal digits to `text`.
fn push_decimal(text: &mut String, n: usize)
    ensures
        final(text)@ == old(text)@ + decimal(n as nat),
    decreases n,
{
    if n >= 10 {
        push_decimal(text, n / 10);
    }
    text.push(digit(n % 10));
    assert(text@ =~= old(text)@ + decimal(n as nat));
}

/// One element of the drawing.
pub enum Primitive {
    /// A label with the place of its left end.
    Text { x: nat, y: nat, label: Seq<char> },
    /// A line from a parent's label down to a child's.
    Line { x_start: nat, y_start: nat, x_end: nat, y_end: nat },
}

/// The element as it stands in the document.
pub open spec fn written(primitive: Primitive) -> Seq<char> {
    match primitive {
        Primitive::Text { x, y, label } => "<text x=\""@ + decimal(x)
            + "\" y=\""@ + decimal(y) + "\">"@ + label + "</text>"@,
        Primitive::Line { x_start, y_start, x_end, y_end } => "<line x1=\""@ + decimal(x_start)
            + "\" y1=\""@ + decimal(y_start) + "\" x2=\""@ + decimal(x_end) + "\" y2=\""@
            + decimal(y_end) + "\" stroke=\"black\" />"@,
    }
}

/// The elements as they stand in the document, one behind the other.
pub open spec fn written_all(primitives: Seq<Primitive>) -> Seq<char>
    decreases primitives.len(),
{
    if primitives.len() == 0 {
        Seq::empty()
    } else {
        written_all(primitives.drop_last()) + written(primitives.last())
    }
}

/// The order in which the nodes waiting in `queue`, and those below them,
/// are visited: the first in the queue is next, and its children join the
/// queue at the back.
pub open spec fn visit_order(queue: Seq<NodeView>) -> Seq<NodeView>
    decreases nodes_among(queue),
{
    if queue.len() == 0 {
        Seq::empty()
    } else {
        proof {
            lemma_visit_shrinks(queue);
        }
        seq![queue[0]] + visit_order(queue.drop_first() + queue[0].children)
    }
}

/// Visiting the first node of a queue leaves fewer nodes to visit.
pub proof fn lemma_visit_shrinks(queue: Seq<NodeView>)
    requires
        queue.len() > 0,
    ensures
        nodes_among(queue.drop_first() + queue[0].children) + 1 == nodes_among(queue),
{
    lemma_nodes_among_concat(queue.drop_first(), queue[0].children);
    lemma_nodes_among_concat(seq![queue[0]], queue.drop_first());
    assert(seq![queue[0]] + queue.drop_first() =~= queue);
    assert(seq![queue[0]].drop_last() =~= Seq::<NodeView>::empty());
    assert(nodes_among(Seq::<NodeView>::empty()) == 0);
    assert(nodes_among(seq![queue[0]]) == nodes_in(queue[0]));
    assert(nodes_in(queue[0]) == 1 + nodes_among(queue[0].children));
}

/// The label of `node`, centred in the node's box.
pub open spec fn text_of(node: NodeView) -> Primitive {
    Primitive::Text {
        x: (node.x + node.full_width / 2 - node.width / 2) as nat,
        y: node.y + PADDING as nat,
        label: node.text,
    }
}

/// The line from `parent` to `child`: from just below the middle of the
/// parent's label to just above the middle of the child's box.
pub open spec fn line_between(parent: NodeView, child: NodeView) -> Primitive {
    Primitive::Line {
        x_start: parent.x + parent.full_width / 2,
        y_start: parent.y + PADDING as nat + 2,
        x_end: child.x + child.full_width / 2,
        y_end: (child.y + PADDING - 13) as nat,
    }
}

/// What a visit of `node` draws: its label, then a line to each child.
pub open spec fn node_primitives(node: NodeView) -> Seq<Primitive> {
    seq![text_of(node)] + Seq::new(
        node.children.len(),
        |i: int| line_between(node, node.children[i]),
    )
}

/// What visits of `nodes`, one after the other, draw.
pub open spec fn primitives_of(nodes: Seq<NodeView>) -> Seq<Primitive>
    decreases nodes.len(),
{
    if nodes.len() == 0 {
        Seq::empty()
    } else {
        primitives_of(nodes.drop_last()) + node_primitives(nodes.last())
    }
}

/// The row of the lowest of `nodes`, and 0 if there is none.
pub open spec fn lowest_of(nodes: Seq<NodeView>) -> nat
    decreases nodes.len(),
{
    if nodes.len() == 0 {
        0
    } else {
        larger(lowest_of(nodes.drop_last()), nodes.last().y)
    }
}

/// The width of the canvas for the tree under `root`: that of the root's box.
pub open spec fn canvas_width(root: NodeView) -> nat {
    root.full_width
}

/// The height of the canvas for the tree under `root`: down to the lowest
/// row, with a margin above and below.
pub open spec fn canvas_height(root: NodeView) -> nat {
    lowest_of(visit_order(seq![root])) + 2 * PADDING as nat
}

/// The document that shows the tree under `root`: a canvas as wide as the
/// root's box and as high as the lowest row with a margin above and below,
/// holding what a breadth-first walk from the root draws.
pub open spec fn document_of(root: NodeView) -> Seq<char> {
    "<svg width=\""@ + decimal(canvas_width(root)) + "\" height=\""@ + decimal(
        canvas_height(root),
    ) + "\">"@ + written_all(primitives_of(visit_order(seq![root]))) + "</svg>"@
}

/// Whether the tree under `node` can be drawn within `usize`: every label
/// starts inside its box, and every box and row, with its margin, ends at
/// no more than `usize::MAX`.
pub open spec fn drawable(node: NodeView) -> bool
    decreases node,
{
    &&& node.x + node.full_width / 2 <= usize::MAX
    &&& node.width / 2 <= node.x + node.full_width / 2
    &&& node.y + 2 * PADDING <= usize::MAX
    &&& forall|i: int| 0 <= i < node.children.len() ==> drawable(#[trigger] node.children[i])
}

/// Whether the tree under `node` can be drawn within `usize`.
pub fn is_drawable(node: &Node) -> (b: bool)
    ensures
        b == drawable(node@),
    decreases node,
{
    let middle = match node.x.checked_add(node.full_width / 2) {
        Some(middle) => middle,
        None => {
            return false;
        },
    };
    if node.width / 2 > middle || node.y > usize::MAX - 2 * PADDING {
        return false;
    }
    let mut i: usize = 0;
    while i < node.children.len()
        invariant
            i <= node.children.len(),
            node@.children.len() == node.children.len(),
            forall|j: int| 0 <= j < node.children.len() ==> node@.children[j] == (
            #[trigger] node.children@[j])@,
            forall|j: int| 0 <= j < i ==> drawable(#[trigger] node@.children[j]),
        decreases node.children.len() - i,
    {
        if !is_drawable(&node.children[i]) {
            return false;
        }
        i += 1;
    }
    true
}

/// Whether the drawing of `e` can be counted in `usize`: the canvas is no
/// wider and no higher than `usize::MAX`.
pub open spec fn canvas_fits(e: ExpressionView) -> bool {
    &&& full_width_of(e) <= usize::MAX
    &&& depth_of(e) * Y_SEPARATION <= usize::MAX
}

/// A placed formula whose box and rows, with a margin below, end at no
/// more than `usize::MAX` can be drawn.
pub proof fn lemma_layout_drawable(e: ExpressionView, y: nat, x: nat)
    requires
        x + full_width_of(e) <= usize::MAX,
        y + depth_of(e) * Y_SEPARATION <= usize::MAX,
    ensures
        drawable(layout(e, y, x)),
    decreases e,
{
    let node = layout(e, y, x);
    let row = y + Y_SEPARATION as nat;
    lemma_depth_positive(e);
    match e {
        ExpressionView::Binary { left, right, .. } => {
            lemma_layout_drawable(*left, row, x);
            lemma_layout_drawable(*right, row, x + full_width_of(*left) + X_SEPARATION as nat);
        },
        ExpressionView::Predicate { arguments, .. } => {
            assert forall|i: int| 0 <= i < node.children.len() implies drawable(
                #[trigger] node.children[i],
            ) by {
                lemma_row_holds_each(arguments, arguments.len(), i as nat);
                lemma_deepest_bounds(arguments, arguments.len(), i);
                lemma_layout_drawable(
                    arguments[i],
                    row,
                    x + offset_of(arguments, i as nat),
                );
            }
        },
        ExpressionView::Quantifier { formula, .. } => {
            lemma_layout_drawable(*formula, row, x);
        },
        ExpressionView::Unary { expression, .. } => {
            lemma_layout_drawable(*expression, row, x);
        },
        ExpressionView::Variable { .. } => {},
    }
}

/// The width and the height of the canvas that the drawing of
/// `expression` takes, if `usize` can count both.
pub fn canvas_size(expression: &Expression) -> (size: Option<(usize, usize)>)
    ensures
        match size {
            Some((width, height)) => {
                &&& canvas_fits(expression@)
                &&& width == full_width_of(expression@)
                &&& height == depth_of(expression@) * Y_SEPARATION
            },
            None => !canvas_fits(expression@),
        },
{
    let width = match checked_full_width(expression) {
        Some(width) => width,
        None => {
            return None;
        },
    };
    let rows = match checked_depth(expression) {
        Some(rows) => rows,
        None => {
            return None;
        },
    };
    match rows.checked_mul(Y_SEPARATION) {
        Some(height) => Some((width, height)),
        None => None,
    }
}

/// The views of the nodes that a queue refers to.
pub open spec fn waiting(queue: Seq<&Node>) -> Seq<NodeView> {
    Seq::new(queue.len(), |i: int| queue[i]@)
}

/// Draws a formula as a tree.
pub struct SvgRenderer {
    expression: Expression,
    content: String,
}

impl SvgRenderer {
    /// The formula that is drawn.
    pub closed spec fn expression(&self) -> ExpressionView {
        self.expression@
    }

    /// The elements written so far.
    pub closed spec fn content(&self) -> Seq<char> {
        self.content@
    }

    /// A renderer of `expression` that has written nothing yet.
    pub fn new(expression: Expression) -> (renderer: Self)
        ensures
            renderer.expression() == expression@,
            renderer.content() == Seq::<char>::empty(),
    {
        Self { expression, content: String::new() }
    }

    /// Places the formula and draws it, and returns the document. What an
    /// earlier call has written is dropped.
    pub fn render(&mut self) -> (document: String)
        requires
            canvas_fits(old(self).expression()),
        ensures
            document@ == document_of(layout(old(self).expression(), 0, 0)),
            final(self).expression() == old(self).expression(),
            final(self).content() == written_all(
                primitives_of(visit_order(seq![layout(old(self).expression(), 0, 0)])),
            ),
    {
        proof {
            lemma_depth_positive(self.expression());
            lemma_layout_drawable(self.expression(), 0, 0);
        }
        let tree = Tree::from_expression(&self.expression);
        self.render_tree(&tree)
    }

    /// Draws `tree`, and returns the document. What an earlier call has
    /// written is dropped.
    pub fn render_tree(&mut self, tree: &Tree) -> (document: String)
        requires
            drawable(tree.root@),
        ensures
            document@ == document_of(tree.root@),
            final(self).expression() == old(self).expression(),
            final(self).content() == written_all(primitives_of(visit_order(seq![tree.root@]))),
    {
        self.content = String::new();
        let mut queue: Vec<&Node> = Vec::new();
        queue.push(&tree.root);
        let mut height: usize = 0;
        let ghost root = tree.root@;
        let ghost mut visited: Seq<NodeView> = Seq::empty();
        proof {
            assert(waiting(queue@) =~= seq![root]);
            assert(visited + visit_order(waiting(queue@)) =~= visit_order(seq![root]));
        }
        while queue.len() > 0
            invariant
                self.expression() == old(self).expression(),
                visited + visit_order(waiting(queue@)) == visit_order(seq![root]),
                self.content() == written_all(primitives_of(visited)),
                height == lowest_of(visited),
                height + 2 * PADDING <= usize::MAX,
                forall|j: int| 0 <= j < queue@.len() ==> drawable((#[trigger] queue@[j])@),
            decreases nodes_among(waiting(queue@)),
        {
            let ghost before = waiting(queue@);
            let ghost drawn = primitives_of(visited);
            let node = queue.remove(0);
            let mut k: usize = 0;
            while k < node.children.len()
                invariant
                    k <= node.children.len(),
                    drawable(node@),
                    before.len() > 0,
                    waiting(queue@) == before.drop_first() + node@.children.take(k as int),
                    forall|j: int| 0 <= j < queue@.len() ==> drawable((#[trigger] queue@[j])@),
                decreases node.children.len() - k,
            {
                let ghost old_queue = queue@;
                queue.push(&node.children[k]);
                proof {
                    assert(node@.children[k as int] == node.children@[k as int]@);
                    assert(drawable(node@.children[k as int]));
                    assert(node@.children.take(k + 1) =~= node@.children.take(k as int).push(
                        node@.children[k as int],
                    ));
                    assert(waiting(queue@) =~= waiting(old_queue).push(node@.children[k as int]));
                    assert(waiting(queue@) =~= before.drop_first() + node@.children.take(k + 1));
                }
                k += 1;
            }
            if node.y > height {
                height = node.y;
            }
            self.render_text(
                node.x + node.full_width / 2 - node.width / 2,
                node.y + PADDING,
                node.text.as_str(),
            );
            let ghost mut lines: Seq<Primitive> = Seq::empty();
            proof {
                assert(drawn + seq![text_of(node@)] =~= drawn.push(text_of(node@)));
                assert(drawn.push(text_of(node@)).drop_last() =~= drawn);
                assert(drawn + (seq![text_of(node@)] + lines) =~= drawn.push(text_of(node@)));
            }
            let mut c: usize = 0;
            while c < node.children.len()
                invariant
                    c <= node.children.len(),
                    drawable(node@),
                    self.expression() == old(self).expression(),
                    lines == Seq::new(
                        c as nat,
                        |i: int| line_between(node@, node@.children[i]),
                    ),
                    self.content() == written_all(drawn + (seq![text_of(node@)] + lines)),
                decreases node.children.len() - c,
            {
                let child = &node.children[c];
                let ghost so_far = drawn + (seq![text_of(node@)] + lines);
                proof {
                    assert(node@.children[c as int] == child@);
                    assert(drawable(node@.children[c as int]));
                }
                self.render_line(
                    node.x + node.full_width / 2,
                    node.y + PADDING + 2,
                    child.x + child.full_width / 2,
                    child.y + PADDING - 13,
                );
                proof {
                    let line = line_between(node@, child@);
                    let more = Seq::new(
                        (c + 1) as nat,
                        |i: int| line_between(node@, node@.children[i]),
                    );
                    assert(more =~= lines.push(line));
                    assert(drawn + (seq![text_of(node@)] + more) =~= so_far.push(line));
                    assert(so_far.push(line).drop_last() =~= so_far);
                    lines = more;
                }
                c += 1;
            }
            proof {
                lemma_visit_shrinks(before);
                assert(before[0] == node@);
                assert(waiting(queue@) =~= before.drop_first() + node@.children) by {
                    assert(node@.children.take(node@.children.len() as int) =~= node@.children);
                }
                let after = visited.push(node@);
                assert(after.drop_last() =~= visited);
                assert(seq![text_of(node@)] + lines =~= node_primitives(node@));
                assert(after + visit_order(waiting(queue@)) =~= visited + visit_order(before));
                visited = after;
            }
        }
        proof {
            assert(visited =~= visit_order(seq![root]));
        }
        let mut document = String::from_str("<svg width=\"");
        push_decimal(&mut document, tree.root.full_width);
        document.append("\" height=\"");
        push_decimal(&mut document, height + 2 * PADDING);
        document.append("\">");
        document.append(self.content.as_str());
        document.append("</svg>");
        assert(document@ =~= document_of(root));
        document
    }

    /// Writes a label with its left end at `(x, y)`.
    fn render_text(&mut self, x: usize, y: usize, text: &str)
        ensures
            final(self).expression() == old(self).expression(),
            final(self).content() == old(self).content() + written(
                Primitive::Text { x: x as nat, y: y as nat, label: text@ },
            ),
    {
        self.content.append("<text x=\"");
        push_decimal(&mut self.content, x);
        self.content.append("\" y=\"");
        push_decimal(&mut self.content, y);
        self.content.append("\">");
        self.content.append(text);
        self.content.append("</text>");
        assert(self.content@ =~= old(self).content@ + written(
            Primitive::Text { x: x as nat, y: y as nat, label: text@ },
        ));
    }

    /// Writes a line from `(x_start, y_start)` to `(x_end, y_end)`.
    fn render_line(&mut self, x_start: usize, y_start: usize, x_end: usize, y_end: usize)
        ensures
            final(self).expression() == old(self).expression(),
            final(self).content() == old(self).content() + written(
                Primitive::Line {
                    x_start: x_start as nat,
                    y_start: y_start as nat,
                    x_end: x_end as nat,
                    y_end: y_end as nat,
                },
            ),
    {
        self.content.append("<line x1=\"");
        push_decimal(&mut self.content, x_start);
        self.content.append("\" y1=\"");
        push_decimal(&mut self.content, y_start);
        self.content.append("\" x2=\"");
        push_decimal(&mut self.content, x_end);
        self.content.append("\" y2=\"");
        push_decimal(&mut self.content, y_end);
        self.content.append("\" stroke=\"black\" />");
        assert(self.content@ =~= old(self).content@ + written(
            Primitive::Line {
                x_start: x_start as nat,
                y_start: y_start as nat,
                x_end: x_end as nat,
                y_end: y_end as nat,
            },
        ));
    }
}

} // verus!
