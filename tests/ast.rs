use dice::ast::{AstNode, ConstantNode, MulNode, Node, RollNode};

fn constant(v: i32) -> Box<Node> {
    Box::new(Node::Constant(ConstantNode::new(v)))
}

#[test]
fn constant_test_visit() {
    let mut node = ConstantNode::new(10);
    assert_eq!(node.visit(), 10);
}

#[test]
fn mul_test_fmt() {
    let mut node = MulNode::new(vec![
        Node::Roll(RollNode::new(constant(3), constant(1))),
        Node::Constant(ConstantNode::new(19)),
    ]);
    node.visit();

    assert_eq!(node.format(), "3 [1, 1, 1] * 19");
}

#[test]
fn mul_test_visit() {
    let mut node = MulNode::new(vec![
        Node::Constant(ConstantNode::new(3)),
        Node::Constant(ConstantNode::new(19)),
    ]);
    assert_eq!(node.visit(), 57);
}

#[test]
fn roll_test_fmt() {
    let mut node = RollNode::new(constant(3), constant(1));
    node.evaluate();

    assert_eq!(node.format(), "3 [1, 1, 1]");
}

#[test]
fn roll_test_visit() {
    let mut node = RollNode::new(constant(3), constant(1));

    let result = node.visit();
    assert_eq!(result, 3);
    assert_eq!(node.visit(), result);
}

#[test]
fn roll_evaluate_returns_outcomes() {
    let mut node = RollNode::new(constant(4), constant(1));
    assert_eq!(node.evaluate(), &vec![1, 1, 1, 1]);
}

#[test]
fn roll_draws_stay_within_faces() {
    let mut node = RollNode::new(constant(50), constant(6));
    let total = node.visit();
    let outcomes = node.result.clone().unwrap();
    assert_eq!(outcomes.len(), 50);
    assert!(outcomes.iter().all(|&o| (1..=6).contains(&o)));
    assert!(outcomes.iter().any(|&o| o != 6));
    assert_eq!(outcomes.iter().sum::<i32>(), total);
    assert!((50..=300).contains(&total));
}

#[test]
fn roll_of_zero_dice_is_empty() {
    let mut node = RollNode::new(constant(0), constant(6));
    assert_eq!(node.visit(), 0);
    assert_eq!(node.format(), "0 []");
}

#[test]
fn roll_cache_kept_until_clear() {
    let mut node = RollNode::new(constant(20), constant(1000));
    let first = node.visit();
    let outcomes = node.result.clone().unwrap();
    assert_eq!(node.visit(), first);
    assert_eq!(node.result.clone().unwrap(), outcomes);
    node.clear();
    assert!(node.result.is_none());
    let again = node.visit();
    assert_eq!(node.result.as_ref().unwrap().len(), 20);
    assert_ne!(node.result.clone().unwrap(), outcomes);
    assert_eq!(node.result.as_ref().unwrap().iter().sum::<i32>(), again);
}

#[test]
fn clear_reaches_nested_rolls() {
    let inner = Node::Roll(RollNode::new(constant(2), constant(1)));
    let mut node = RollNode::new(Box::new(inner), constant(1));
    assert_eq!(node.visit(), 2);
    assert_eq!(node.format(), "2 [1, 1]");
    node.clear();
    assert!(node.result.is_none());
    match node.left.as_ref() {
        Node::Roll(r) => assert!(r.result.is_none()),
        _ => panic!("the count is a roll"),
    }
}

#[test]
fn nested_mul_formats_each_child() {
    let mut node = Node::Mul(MulNode::new(vec![
        Node::Constant(ConstantNode::new(-2)),
        Node::Roll(RollNode::new(constant(2), constant(1))),
        Node::Constant(ConstantNode::new(7)),
    ]));
    assert_eq!(node.visit(), -28);
    assert_eq!(node.format(), "-2 * 2 [1, 1] * 7");
}

#[test]
fn constant_format_is_decimal() {
    assert_eq!(ConstantNode::new(0).format(), "0");
    assert_eq!(ConstantNode::new(-45).format(), "-45");
    assert_eq!(ConstantNode::new(2147483647).format(), "2147483647");
}

#[test]
fn can_evaluate_checks_counts_and_bounds() {
    let negative_count = Node::Roll(RollNode::new(constant(-1), constant(6)));
    assert!(!negative_count.can_evaluate());
    let zero_product = Node::Mul(MulNode::new(vec![
        Node::Constant(ConstantNode::new(0)),
        Node::Constant(ConstantNode::new(i32::MIN)),
    ]));
    assert!(!zero_product.can_evaluate());
    let fine = Node::Mul(MulNode::new(vec![
        Node::Constant(ConstantNode::new(-7)),
        Node::Roll(RollNode::new(constant(2), constant(3))),
    ]));
    assert!(fine.can_evaluate());
}

#[test]
fn can_evaluate_checks_kept_outcomes() {
    let mut roll = RollNode::new(constant(2), constant(6));
    roll.result = Some(vec![7, 1]);
    assert!(!Node::Roll(roll).can_evaluate());
    let mut roll = RollNode::new(constant(2), constant(6));
    roll.result = Some(vec![6, 1]);
    assert!(Node::Roll(roll).can_evaluate());
}
