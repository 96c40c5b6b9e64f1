//! Hands a formula to `id_tree` as a tree of labels.

use crate::ast::parser::{size_of, sizes_among, Expression, ExpressionView};
use crate::visualizer::tree::{label, label_of};
use vstd::prelude::*;

verus! {

/// A tree of labels, held by `id_tree`: nodes in slots, each with its
/// label, its parent and its children in order. The contracts speak of it
/// through `tree_rows`, `tree_root`, `tree_spare` and `tree_mark` alone.
#[verifier::external_body]
pub struct LabelTree {
    pub tree: id_tree::Tree<String>,
}

/// `id_tree::NodeId`: the tree that a node belongs to and the node's slot.
#[verifier::external_type_specification]
#[verifier::external_body]
pub struct ExNodeId(id_tree::NodeId);

/// One slot of a tree: the label of its node, the slot of the node's
/// parent (or -1), and the slots of the node's children, in order.
pub type Row = (Seq<char>, int, Seq<int>);

/// The slots of `tree` (its `nodes`), in order; a slot whose node was
/// removed holds `None`.
pub uninterp spec fn tree_rows(tree: LabelTree) -> Seq<Option<Row>>;

/// The slot of the root of `tree` (the index of its `root`), or -1 if it
/// has none.
pub uninterp spec fn tree_root(tree: LabelTree) -> int;

/// How many slots of `tree` wait to be used again (the length of its
/// `free_ids`).
pub uninterp spec fn tree_spare(tree: LabelTree) -> nat;

/// The number that `tree` marks its node ids with (its `id`, a
/// `ProcessUniqueId`, read as one number).
pub uninterp spec fn tree_mark(tree: LabelTree) -> int;

/// The slot that `id` names (its `index`).
pub uninterp spec fn id_slot(id: id_tree::NodeId) -> nat;

/// The mark of the tree that gave out `id` (its `tree_id`, read as
/// `tree_mark` reads a tree's).
pub uninterp spec fn id_mark(id: id_tree::NodeId) -> int;

/// `TreeBuilder::new().build()`: a tree without nodes, without a root and
/// without spare slots. Nothing is said of its mark: every tree gets its own.
#[verifier::external_body]
fn new_tree() -> (tree: LabelTree)
    ensures
        tree_rows(tree).len() == 0,
        tree_root(tree) == -1,
        tree_spare(tree) == 0,
{
    LabelTree { tree: id_tree::TreeBuilder::new().build() }
}

/// `Tree::insert` with `InsertBehavior::AsRoot`, on a tree without a root
/// and without spare slots: it always succeeds, and the new node, without
/// parent and children, takes a new last slot and is the root.
#[verifier::external_body]
fn insert_root(tree: &mut LabelTree, label: String) -> (id: Option<id_tree::NodeId>)
    requires
        tree_root(*old(tree)) == -1,
        tree_spare(*old(tree)) == 0,
    ensures
        id is Some,
        id_slot(id->0) == tree_rows(*old(tree)).len(),
        id_mark(id->0) == tree_mark(*old(tree)),
        tree_rows(*final(tree)) == tree_rows(*old(tree)).push(
            Some((label@, -1int, Seq::<int>::empty())),
        ),
        tree_root(*final(tree)) == tree_rows(*old(tree)).len(),
        tree_spare(*final(tree)) == 0,
        tree_mark(*final(tree)) == tree_mark(*old(tree)),
{
    tree.tree.insert(id_tree::Node::new(label), id_tree::InsertBehavior::AsRoot).ok()
}

/// `rows` after the node in slot `parent` has got the node in slot
/// `child` as its last child.
pub open spec fn adopt(rows: Seq<Option<Row>>, parent: int, child: int) -> Seq<Option<Row>> {
    let row = rows[parent]->0;
    rows.update(parent, Some((row.0, row.1, row.2.push(child))))
}

/// `rows` after a new node with the label `label` has taken a new last
/// slot as the last child of the node in slot `parent`.
pub open spec fn with_child(rows: Seq<Option<Row>>, parent: int, label: Seq<char>) -> Seq<
    Option<Row>,
> {
    adopt(rows, parent, rows.len() as int).push(Some((label, parent, Seq::<int>::empty())))
}

/// Whether `id` names a node of `tree`: the id was given out by this tree,
/// and its slot still holds a node.
pub open spec fn names_node(tree: LabelTree, id: id_tree::NodeId) -> bool {
    &&& id_mark(id) == tree_mark(tree)
    &&& id_slot(id) < tree_rows(tree).len()
    &&& tree_rows(tree)[id_slot(id) as int] is Some
}

/// `Tree::insert` with `InsertBehavior::UnderNode`, on a tree without
/// spare slots. It succeeds exactly when `parent` names a node of the
/// tree; the new node then takes a new last slot and becomes the last
/// child of `parent`. Else the tree stays as it is. An id of this tree
/// that names a slot beyond the last makes `insert` panic, so it is not
/// admitted.
#[verifier::external_body]
fn insert_under(tree: &mut LabelTree, label: String, parent: &id_tree::NodeId) -> (id: Option<
    id_tree::NodeId,
>)
    requires
        tree_spare(*old(tree)) == 0,
        id_mark(*parent) == tree_mark(*old(tree)) ==> id_slot(*parent) < tree_rows(
            *old(tree),
        ).len(),
    ensures
        id is Some <==> names_node(*old(tree), *parent),
        id matches Some(new) ==> id_slot(new) == tree_rows(*old(tree)).len() && id_mark(new)
            == tree_mark(*old(tree)),
        tree_rows(*final(tree)) == if id is Some {
            with_child(tree_rows(*old(tree)), id_slot(*parent) as int, label@)
        } else {
            tree_rows(*old(tree))
        },
        tree_root(*final(tree)) == tree_root(*old(tree)),
        tree_spare(*final(tree)) == 0,
        tree_mark(*final(tree)) == tree_mark(*old(tree)),
{
    tree.tree.insert(id_tree::Node::new(label), id_tree::InsertBehavior::UnderNode(parent)).ok()
}

/// The slots that the children of `e` take when `e` itself takes slot
/// `slot` and its subtree the slots behind it, each node before its
/// children and the children in order.
pub open spec fn child_slots(e: ExpressionView, slot: int) -> Seq<int> {
    match e {
        ExpressionView::Binary { left, .. } => seq![slot + 1, slot + 1 + size_of(*left)],
        ExpressionView::Predicate { arguments, .. } => Seq::new(
            arguments.len(),
            |i: int| slot + 1 + sizes_among(arguments.take(i)),
        ),
        ExpressionView::Quantifier { .. } => seq![slot + 1],
        ExpressionView::Unary { .. } => seq![slot + 1],
        ExpressionView::Variable { .. } => Seq::empty(),
    }
}

/// The slots that `e` fills when its root takes slot `slot` under the
/// node in slot `parent`: the root's, then those of each child's subtree.
pub open spec fn rows_of(e: ExpressionView, slot: int, parent: int) -> Seq<Option<Row>>
    decreases e, 0nat,
{
    seq![Some((label_of(e), parent, child_slots(e, slot)))] + match e {
        ExpressionView::Binary { left, right, .. } => rows_of(*left, slot + 1, slot)
            + rows_of(*right, slot + 1 + size_of(*left), slot),
        ExpressionView::Predicate { arguments, .. } => rows_among(
            arguments,
            arguments.len(),
            slot + 1,
            slot,
        ),
        ExpressionView::Quantifier { formula, .. } => rows_of(*formula, slot + 1, slot),
        ExpressionView::Unary { expression, .. } => rows_of(*expression, slot + 1, slot),
        ExpressionView::Variable { .. } => Seq::empty(),
    }
}

/// The slots that the first `n` of `expressions` fill, one subtree behind
/// the other from slot `first` on, all under the node in slot `parent`.
pub open spec fn rows_among(
    expressions: Seq<ExpressionView>,
    n: nat,
    first: int,
    parent: int,
) -> Seq<Option<Row>>
    decreases expressions, n,
{
    if n == 0 || n > expressions.len() {
        Seq::empty()
    } else {
        rows_among(expressions, (n - 1) as nat, first, parent) + rows_of(
            expressions[n - 1],
            first + sizes_among(expressions.take(n - 1)),
            parent,
        )
    }
}

/// A formula fills one slot for each of its nodes.
pub proof fn lemma_rows_count(e: ExpressionView, slot: int, parent: int)
    ensures
        rows_of(e, slot, parent).len() == size_of(e),
    decreases e, 0nat,
{
    match e {
        ExpressionView::Binary { left, right, .. } => {
            lemma_rows_count(*left, slot + 1, slot);
            lemma_rows_count(*right, slot + 1 + size_of(*left), slot);
        },
        ExpressionView::Predicate { arguments, .. } => {
            lemma_rows_among_count(arguments, arguments.len(), slot + 1, slot);
            assert(arguments.take(arguments.len() as int) =~= arguments);
        },
        ExpressionView::Quantifier { formula, .. } => {
            lemma_rows_count(*formula, slot + 1, slot);
        },
        ExpressionView::Unary { expression, .. } => {
            lemma_rows_count(*expression, slot + 1, slot);
        },
        ExpressionView::Variable { .. } => {},
    }
}

/// Some formulas fill one slot for each of their nodes.
pub proof fn lemma_rows_among_count(
    expressions: Seq<ExpressionView>,
    n: nat,
    first: int,
    parent: int,
)
    requires
        n <= expressions.len(),
    ensures
        rows_among(expressions, n, first, parent).len() == sizes_among(expressions.take(n as int)),
    decreases expressions, n,
{
    if n > 0 {
        lemma_rows_among_count(expressions, (n - 1) as nat, first, parent);
        lemma_rows_count(
            expressions[n - 1],
            first + sizes_among(expressions.take(n - 1)),
            parent,
        );
        assert(expressions.take(n as int).drop_last() =~= expressions.take(n - 1));
        assert(expressions.take(n as int).last() == expressions[n - 1]);
    } else {
        assert(expressions.take(0).len() == 0);
    }
}

/// A node that takes a child keeps its place among the slots, and what
/// stands before and behind it stays.
proof fn lemma_adopt_in_place(
    base: Seq<Option<Row>>,
    label: Seq<char>,
    parent: int,
    children: Seq<int>,
    rest: Seq<Option<Row>>,
    child: int,
)
    ensures
        adopt(base + seq![Some((label, parent, children))] + rest, base.len() as int, child)
            == base + seq![Some((label, parent, children.push(child)))] + rest,
{
    let rows = base + seq![Some((label, parent, children))] + rest;
    assert(rows[base.len() as int] == Some((label, parent, children)));
    assert(adopt(rows, base.len() as int, child) =~= base + seq![
        Some((label, parent, children.push(child))),
    ] + rest);
}

/// Builds the tree of labels of a formula.
pub struct Visualizer {}

impl Visualizer {
    /// A tree with the root `Formula` and, as its only child, the tree of
    /// the labels of `expression`. Every node stands before its children,
    /// and children stand in order.
    pub fn build_tree(expression: &Expression) -> (tree: LabelTree)
        ensures
            tree_rows(tree) == seq![Some(("Formula"@, -1int, seq![1int]))] + rows_of(
                expression@,
                1,
                0,
            ),
            tree_root(tree) == 0,
            tree_spare(tree) == 0,
    {
        let mut tree = new_tree();
        let root = insert_root(&mut tree, String::from_str("Formula")).unwrap();
        Visualizer::insert_expression(&mut tree, expression, &root);
        assert(tree_rows(tree) =~= seq![Some(("Formula"@, -1int, seq![1int]))] + rows_of(
            expression@,
            1,
            0,
        ));
        tree
    }

    /// Puts the labels of `expression` into `tree`, under the node `parent`.
    fn insert_expression(tree: &mut LabelTree, expression: &Expression, parent: &id_tree::NodeId)
        requires
            tree_spare(*old(tree)) == 0,
            names_node(*old(tree), *parent),
        ensures
            tree_rows(*final(tree)) == adopt(
                tree_rows(*old(tree)),
                id_slot(*parent) as int,
                tree_rows(*old(tree)).len() as int,
            ) + rows_of(
                expression@,
                tree_rows(*old(tree)).len() as int,
                id_slot(*parent) as int,
            ),
            tree_root(*final(tree)) == tree_root(*old(tree)),
            tree_spare(*final(tree)) == 0,
            tree_mark(*final(tree)) == tree_mark(*old(tree)),
        decreases expression,
    {
        let ghost before = tree_rows(*tree);
        let ghost p = id_slot(*parent) as int;
        let ghost s = before.len() as int;
        let ghost e = expression@;
        let ghost base = adopt(before, p, s);
        let branch = insert_under(tree, label(expression), parent).unwrap();
        let ghost none = Seq::<int>::empty();
        let ghost nothing = Seq::<Option<Row>>::empty();
        let ghost text = label_of(e);
        proof {
            assert(base.len() == s);
            assert(tree_rows(*tree) =~= base + seq![Some((text, p, none))] + nothing);
        }
        match expression {
            Expression::Variable { .. } => {
                assert(tree_rows(*tree) =~= base + rows_of(e, s, p));
            },
            Expression::Binary { left, right, .. } => {
                Visualizer::insert_expression(tree, left, &branch);
                proof {
                    lemma_adopt_in_place(base, text, p, none, nothing, s + 1);
                    lemma_rows_count(left@, s + 1, s);
                    assert(tree_rows(*tree) =~= base + seq![Some((text, p, none.push(s + 1)))]
                        + rows_of(left@, s + 1, s));
                }
                Visualizer::insert_expression(tree, right, &branch);
                proof {
                    let second = s + 1 + size_of(left@);
                    lemma_adopt_in_place(
                        base,
                        text,
                        p,
                        none.push(s + 1),
                        rows_of(left@, s + 1, s),
                        second,
                    );
                    assert(none.push(s + 1).push(second) =~= child_slots(e, s));
                    assert(tree_rows(*tree) =~= base + rows_of(e, s, p));
                }
            },
            Expression::Unary { expression: operand, .. } => {
                Visualizer::insert_expression(tree, operand, &branch);
                proof {
                    lemma_adopt_in_place(base, text, p, none, nothing, s + 1);
                    assert(none.push(s + 1) =~= child_slots(e, s));
                    assert(tree_rows(*tree) =~= base + rows_of(e, s, p));
                }
            },
            Expression::Predicate { arguments, .. } => {
                let mut i: usize = 0;
                proof {
                    assert(child_slots(e, s).take(0) =~= none);
                }
                while i < arguments.len()
                    invariant
                        i <= arguments.len(),
                        expression matches Expression::Predicate { arguments: own, .. } && own
                            == arguments,
                        e == expression@,
                        text == label_of(e),
                        e matches ExpressionView::Predicate { arguments: views, .. }
                            && views.len() == arguments.len() && (forall|j: int|
                            0 <= j < views.len() ==> views[j] == (#[trigger] arguments@[j])@)
                            && tree_rows(*tree) == base + seq![
                            Some((text, p, child_slots(e, s).take(i as int))),
                        ] + rows_among(views, i as nat, s + 1, s),
                        base.len() == s,
                        id_slot(branch) == s,
                        id_mark(branch) == tree_mark(*tree),
                        tree_root(*tree) == tree_root(*old(tree)),
                        tree_spare(*tree) == 0,
                        tree_mark(*tree) == tree_mark(*old(tree)),
                    decreases arguments.len() - i,
                {
                    let ghost views = e->Predicate_arguments;
                    let ghost slots = child_slots(e, s).take(i as int);
                    let ghost filled = rows_among(views, i as nat, s + 1, s);
                    let ghost next = s + 1 + sizes_among(views.take(i as int));
                    proof {
                        lemma_rows_among_count(views, i as nat, s + 1, s);
                        assert(tree_rows(*tree).len() == next);
                    }
                    Visualizer::insert_expression(tree, &arguments[i], &branch);
                    proof {
                        lemma_adopt_in_place(base, text, p, slots, filled, next);
                        assert(child_slots(e, s).take(i + 1) =~= slots.push(next));
                        assert(rows_among(views, (i + 1) as nat, s + 1, s) == filled + rows_of(
                            views[i as int],
                            next,
                            s,
                        ));
                        assert(tree_rows(*tree) =~= base + seq![
                            Some((text, p, child_slots(e, s).take(i + 1))),
                        ] + rows_among(views, (i + 1) as nat, s + 1, s));
                    }
                    i += 1;
                }
                proof {
                    assert(child_slots(e, s).take(arguments.len() as int) =~= child_slots(e, s));
                    assert(tree_rows(*tree) =~= base + rows_of(e, s, p));
                }
            },
            Expression::Quantifier { formula, .. } => {
                Visualizer::insert_expression(tree, formula, &branch);
                proof {
                    lemma_adopt_in_place(base, text, p, none, nothing, s + 1);
                    assert(none.push(s + 1) =~= child_slots(e, s));
                    assert(tree_rows(*tree) =~= base + rows_of(e, s, p));
                }
            },
        }
    }
}

} // verus!
