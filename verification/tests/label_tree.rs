use formula_tree::ast::lexer::Lexer;
use formula_tree::ast::parser::{Expression, Parser};
use formula_tree::ast::visualizer::Visualizer;
use id_tree::{NodeId, Tree};

fn parsed(input: &str) -> Expression {
    let mut lexer = Lexer::new(input);
    let mut parser = Parser::new(lexer.tokenize().unwrap());
    parser.parse().unwrap()
}

fn outline(tree: &Tree<String>, id: &NodeId) -> String {
    let node = tree.get(id).unwrap();
    let children: Vec<String> = node.children().iter().map(|c| outline(tree, c)).collect();
    if children.is_empty() {
        node.data().clone()
    } else {
        format!("{}[{}]", node.data(), children.join(" "))
    }
}

fn built(input: &str) -> String {
    let labels = Visualizer::build_tree(&parsed(input));
    let root = labels.tree.root_node_id().unwrap().clone();
    outline(&labels.tree, &root)
}

#[test]
fn a_variable_hangs_under_the_root() {
    assert_eq!(built("A"), "Formula[A]");
}

#[test]
fn operands_are_children_in_order() {
    assert_eq!(built("A ∧ B ∨ C"), "Formula[∨[∧[A B] C]]");
}

#[test]
fn every_kind_of_node_has_its_label() {
    assert_eq!(
        built("∀x: P(x, f(y), z) ⇒ ¬Q"),
        "Formula[∀x[⇒[P[x f[y] z] ¬[Q]]]]"
    );
    assert_eq!(built("P()"), "Formula[P]");
}

#[test]
fn nodes_take_their_slots_in_order_of_insertion() {
    let labels = Visualizer::build_tree(&parsed("P(a, b) ∧ c"));
    let order: Vec<String> = labels
        .tree
        .traverse_pre_order(labels.tree.root_node_id().unwrap())
        .unwrap()
        .map(|n| n.data().clone())
        .collect();
    assert_eq!(order, vec!["Formula", "∧", "P", "a", "b", "c"]);
    let root = labels.tree.get(labels.tree.root_node_id().unwrap()).unwrap();
    assert!(root.parent().is_none());
    assert_eq!(root.children().len(), 1);
}
