use calculator::parser::{ParseError, TreeNode};
use calculator::tokeniser::{BinaryOp, NodeValue, Number, UnaryOp};

fn number(n: Number) -> i64 {
    match n {
        Number::Literal(text) => text.parse().unwrap(),
        Number::Pi => 3,
        Number::E => 2,
    }
}

fn unary(fun: UnaryOp, x: i64) -> i64 {
    match fun {
        UnaryOp::Abs => x.abs(),
        UnaryOp::Factorial => (1..=x).product(),
        _ => -x,
    }
}

fn binary(fun: BinaryOp, x: i64, y: i64) -> i64 {
    match fun {
        BinaryOp::Add => x + y,
        BinaryOp::Sub => x - y,
        BinaryOp::Mul => x * y,
        BinaryOp::Div => x / y,
        BinaryOp::Rem => x.rem_euclid(y),
        _ => 0,
    }
}

fn value(tree: TreeNode) -> Result<i64, ParseError> {
    tree.eval(&number, &unary, &binary)
}

fn leaf(text: &str) -> TreeNode {
    TreeNode {
        left: None,
        right: None,
        value: Some(NodeValue::Constant(Number::Literal(text.to_string()))),
    }
}

fn operator(fun: BinaryOp) -> Option<NodeValue> {
    Some(NodeValue::Operator { fun, priority: 1, name: "op".to_string() })
}

fn function(fun: UnaryOp) -> Option<NodeValue> {
    Some(NodeValue::Function { fun, priority: 3, after: false, name: "f".to_string() })
}

fn node(left: Option<TreeNode>, right: Option<TreeNode>, value: Option<NodeValue>) -> TreeNode {
    TreeNode { left: left.map(Box::new), right: right.map(Box::new), value }
}

#[test]
fn a_leaf_has_the_value_of_its_number() {
    assert_eq!(value(leaf("42")), Ok(42));
    assert_eq!(value(node(None, None, Some(NodeValue::Constant(Number::Pi)))), Ok(3));
    assert_eq!(value(node(None, None, Some(NodeValue::Constant(Number::E)))), Ok(2));
}

#[test]
fn an_operator_is_applied_to_left_and_right_in_this_order() {
    let tree = node(Some(leaf("7")), Some(leaf("2")), operator(BinaryOp::Sub));
    assert_eq!(value(tree), Ok(5));
    let tree = node(Some(leaf("7")), Some(leaf("2")), operator(BinaryOp::Div));
    assert_eq!(value(tree), Ok(3));
}

#[test]
fn a_function_is_applied_to_its_left_child() {
    let tree = node(Some(leaf("4")), None, function(UnaryOp::Factorial));
    assert_eq!(value(tree), Ok(24));
    // A right child of a function is not looked at.
    let tree = node(Some(leaf("4")), Some(node(None, None, None)), function(UnaryOp::Factorial));
    assert_eq!(value(tree), Ok(24));
}

#[test]
fn the_children_of_a_number_are_not_looked_at() {
    let mut tree = leaf("5");
    tree.left = Some(Box::new(node(None, None, None)));
    assert_eq!(value(tree), Ok(5));
}

#[test]
fn children_are_evaluated_before_their_parent() {
    // (2 + 3) * (4!)
    let sum = node(Some(leaf("2")), Some(leaf("3")), operator(BinaryOp::Add));
    let fact = node(Some(leaf("4")), None, function(UnaryOp::Factorial));
    let tree = node(Some(sum), Some(fact), operator(BinaryOp::Mul));
    assert_eq!(value(tree), Ok(120));
}

#[test]
fn a_node_that_holds_nothing_has_no_value() {
    let expected = Err(ParseError::InvalidNumber("No value".to_string()));
    assert_eq!(value(node(None, None, None)), expected);
    assert_eq!(value(node(Some(leaf("1")), Some(leaf("2")), None)), expected);
}

#[test]
fn an_operator_needs_both_children() {
    let expected = Err(ParseError::UnexpectedOperator("No left or right".to_string()));
    assert_eq!(value(node(None, None, operator(BinaryOp::Add))), expected);
    assert_eq!(value(node(Some(leaf("1")), None, operator(BinaryOp::Add))), expected);
    assert_eq!(value(node(None, Some(leaf("1")), operator(BinaryOp::Add))), expected);
}

#[test]
fn a_function_needs_its_left_child() {
    let expected = Err(ParseError::UnexpectedFunction("No left".to_string()));
    assert_eq!(value(node(None, None, function(UnaryOp::Abs))), expected);
    assert_eq!(value(node(None, Some(leaf("1")), function(UnaryOp::Abs))), expected);
}

#[test]
fn the_flaw_of_a_node_comes_before_the_flaws_of_its_children() {
    let broken_function = node(None, None, function(UnaryOp::Abs));
    let tree = node(Some(broken_function), None, operator(BinaryOp::Add));
    assert_eq!(
        value(tree),
        Err(ParseError::UnexpectedOperator("No left or right".to_string()))
    );
}

#[test]
fn the_flaw_of_the_left_child_comes_before_that_of_the_right_one() {
    let left = node(None, None, function(UnaryOp::Abs));
    let right = node(None, None, None);
    let tree = node(Some(left), Some(right), operator(BinaryOp::Add));
    assert_eq!(value(tree), Err(ParseError::UnexpectedFunction("No left".to_string())));
    let left = leaf("1");
    let right = node(None, None, None);
    let tree = node(Some(left), Some(right), operator(BinaryOp::Add));
    assert_eq!(value(tree), Err(ParseError::InvalidNumber("No value".to_string())));
}

#[test]
fn a_flaw_deep_in_the_tree_is_found() {
    let deep = node(Some(node(None, None, None)), None, function(UnaryOp::Abs));
    let tree = node(Some(leaf("1")), Some(deep), operator(BinaryOp::Mul));
    assert_eq!(value(tree), Err(ParseError::InvalidNumber("No value".to_string())));
}

#[test]
fn the_same_tree_has_the_same_value_each_time() {
    let build = || {
        let sum = node(Some(leaf("2")), Some(leaf("3")), operator(BinaryOp::Add));
        node(Some(sum), Some(leaf("4")), operator(BinaryOp::Rem))
    };
    assert_eq!(value(build()), value(build()));
    assert_eq!(value(build()), Ok(1));
}
