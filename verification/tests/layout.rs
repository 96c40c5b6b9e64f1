use formula_tree::ast::lexer::Lexer;
use formula_tree::ast::parser::{BinaryOperator, Expression, Parser, UnaryOperator};
use formula_tree::visualizer::drawable::{
    checked_depth, checked_text_width, Drawable, CHAR_WIDTH, ELT_HEIGHT, QUANTIFIER_WIDTH,
};
use formula_tree::visualizer::tree::{
    checked_full_width, label, Node, Tree, X_SEPARATION, Y_SEPARATION,
};

fn parsed(input: &str) -> Expression {
    let mut lexer = Lexer::new(input);
    let mut parser = Parser::new(lexer.tokenize().unwrap());
    parser.parse().unwrap()
}

fn leaf(text: &str, width: usize, y: usize, x: usize) -> Node {
    Node { text: text.to_string(), children: vec![], width, full_width: width, y, x }
}

fn count(node: &Node) -> usize {
    1 + node.children.iter().map(count).sum::<usize>()
}

fn check_widths(node: &Node) {
    assert!(node.full_width >= node.width);
    for child in &node.children {
        assert_eq!(child.y, node.y + 40);
        assert!(child.x >= node.x);
        assert!(child.x + child.full_width <= node.x + node.full_width);
        check_widths(child);
    }
}

#[test]
fn the_constants_have_their_values() {
    assert_eq!(CHAR_WIDTH, 8);
    assert_eq!(QUANTIFIER_WIDTH, 10);
    assert_eq!(ELT_HEIGHT, 20);
    assert_eq!(X_SEPARATION, 20);
    assert_eq!(Y_SEPARATION, 40);
}

#[test]
fn text_width_counts_the_label() {
    assert_eq!(parsed("abc").text_width(), 24);
    assert_eq!(parsed("Pred(x, y, z)").text_width(), 32);
    assert_eq!(parsed("∀xy: A").text_width(), 26);
    assert_eq!(parsed("∃x: A").text_width(), 18);
    assert_eq!(parsed("A ∧ (B ∨ C)").text_width(), 8);
    assert_eq!(parsed("¬LongName").text_width(), 8);
}

#[test]
fn text_width_counts_bytes_of_the_name() {
    assert_eq!(parsed("é").text_width(), 16);
    assert_eq!(checked_text_width(&parsed("é")), Some(16));
}

#[test]
fn height_counts_rows() {
    assert_eq!(parsed("A").height(), 20);
    assert_eq!(parsed("P()").height(), 20);
    assert_eq!(parsed("P(x)").height(), 40);
    assert_eq!(parsed("A ∧ B").height(), 40);
    assert_eq!(parsed("¬A").height(), 40);
    assert_eq!(parsed("∀x: P(x)").height(), 60);
    assert_eq!(parsed("A ∧ ¬¬B").height(), 80);
    assert_eq!(parsed("P(a, f(g(b)), c)").height(), 80);
}

#[test]
fn checked_measures_agree_with_the_plain_ones() {
    let expression = parsed("∀x: P(x, y) ⇒ ¬Q");
    assert_eq!(checked_text_width(&expression), Some(expression.text_width()));
    assert_eq!(checked_depth(&expression), Some(4));
    assert_eq!(checked_full_width(&expression), Some(64));
    assert_eq!(expression.height(), 80);
}

#[test]
fn labels_are_names_and_symbols() {
    assert_eq!(label(&parsed("abc")), "abc");
    assert_eq!(label(&parsed("P(x)")), "P");
    assert_eq!(label(&parsed("A ⇔ B")), "⇔");
    assert_eq!(label(&parsed("a ~= b")), "≠");
    assert_eq!(label(&parsed("~a")), "¬");
    assert_eq!(label(&parsed("!x: A")), "∀x");
    assert_eq!(label(&parsed("∃var: A")), "∃var");
}

#[test]
fn a_variable_is_a_single_box_at_the_origin() {
    let tree = Tree::from_expression(&parsed("abc"));
    assert_eq!(tree.root, leaf("abc", 24, 0, 0));
}

#[test]
fn a_binary_node_places_its_operands_side_by_side() {
    let tree = Tree::from_expression(&parsed("A ∧ B"));
    assert_eq!(
        tree.root,
        Node {
            text: "∧".to_string(),
            children: vec![leaf("A", 8, 40, 0), leaf("B", 8, 40, 28)],
            width: 8,
            full_width: 36,
            y: 0,
            x: 0,
        }
    );
}

#[test]
fn a_predicate_places_its_arguments_in_a_row() {
    let tree = Tree::from_expression(&parsed("P(x, yy, z)"));
    assert_eq!(
        tree.root,
        Node {
            text: "P".to_string(),
            children: vec![leaf("x", 8, 40, 0), leaf("yy", 16, 40, 28), leaf("z", 8, 40, 64)],
            width: 8,
            full_width: 72,
            y: 0,
            x: 0,
        }
    );
}

#[test]
fn a_predicate_without_arguments_is_as_wide_as_its_name() {
    let tree = Tree::from_expression(&parsed("Pred()"));
    assert_eq!(tree.root, leaf("Pred", 32, 0, 0));
}

#[test]
fn a_long_label_widens_the_box_over_the_children() {
    let tree = Tree::from_expression(&parsed("Predicate(x)"));
    assert_eq!(
        tree.root,
        Node {
            text: "Predicate".to_string(),
            children: vec![leaf("x", 8, 40, 0)],
            width: 72,
            full_width: 72,
            y: 0,
            x: 0,
        }
    );
}

#[test]
fn quantifier_and_negation_stand_over_their_only_child() {
    let tree = Tree::from_expression(&parsed("∀x: ¬P"));
    assert_eq!(
        tree.root,
        Node {
            text: "∀x".to_string(),
            children: vec![Node {
                text: "¬".to_string(),
                children: vec![leaf("P", 8, 80, 0)],
                width: 8,
                full_width: 8,
                y: 40,
                x: 0,
            }],
            width: 18,
            full_width: 18,
            y: 0,
            x: 0,
        }
    );
}

#[test]
fn a_compound_argument_is_laid_out_in_full() {
    let tree = Tree::from_expression(&parsed("P((a ∧ b), c)"));
    assert_eq!(
        tree.root,
        Node {
            text: "P".to_string(),
            children: vec![
                Node {
                    text: "∧".to_string(),
                    children: vec![leaf("a", 8, 80, 0), leaf("b", 8, 80, 28)],
                    width: 8,
                    full_width: 36,
                    y: 40,
                    x: 0,
                },
                leaf("c", 8, 40, 56),
            ],
            width: 8,
            full_width: 64,
            y: 0,
            x: 0,
        }
    );
}

#[test]
fn subtrees_start_where_they_are_told() {
    let expression = Expression::Binary {
        left: Box::new(Expression::Variable { identifier: "A".to_string() }),
        operator: BinaryOperator::Disjunction,
        right: Box::new(Expression::Unary {
            operator: UnaryOperator::Not,
            expression: Box::new(Expression::Variable { identifier: "B".to_string() }),
        }),
    };
    let node = Node::from_expression(&expression, 100, 7);
    assert_eq!(
        node,
        Node {
            text: "∨".to_string(),
            children: vec![
                leaf("A", 8, 140, 7),
                Node {
                    text: "¬".to_string(),
                    children: vec![leaf("B", 8, 180, 35)],
                    width: 8,
                    full_width: 8,
                    y: 140,
                    x: 35,
                },
            ],
            width: 8,
            full_width: 36,
            y: 100,
            x: 7,
        }
    );
}

#[test]
fn every_box_holds_its_label_and_its_children() {
    for input in [
        "A",
        "P()",
        "∀x: P(x, y) ⇒ ¬Q",
        "LongPredicateName(a, b) ∨ ∃variable: c = d",
    ] {
        let expression = parsed(input);
        let tree = Tree::from_expression(&expression);
        check_widths(&tree.root);
        assert_eq!(tree.root.width, expression.text_width());
        assert_eq!(Some(tree.root.full_width), checked_full_width(&expression));
    }
}

#[test]
fn the_placed_tree_has_a_node_for_each_node_of_the_formula() {
    assert_eq!(count(&Tree::from_expression(&parsed("A")).root), 1);
    assert_eq!(count(&Tree::from_expression(&parsed("∀x: P(x, y) ⇒ ¬Q")).root), 7);
}
