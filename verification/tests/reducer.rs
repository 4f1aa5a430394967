use calculator::parser::{find_and_replace, parse, replace_paren, ParseError, TreeNode};
use calculator::tokeniser::{tokenise, BinaryOp, NodeValue, Number, Token, UnaryOp};

fn tokens(text: &str) -> Vec<Token> {
    tokenise(text.to_string()).unwrap()
}

fn tree_of(text: &str) -> Result<TreeNode, ParseError> {
    parse(&tokens(text))
}

fn num(text: &str) -> TreeNode {
    TreeNode {
        left: None,
        right: None,
        value: Some(NodeValue::Constant(Number::Literal(text.to_string()))),
    }
}

fn constant(n: Number) -> TreeNode {
    TreeNode { left: None, right: None, value: Some(NodeValue::Constant(n)) }
}

fn op(fun: BinaryOp, priority: i32, name: &str, left: TreeNode, right: TreeNode) -> TreeNode {
    TreeNode {
        left: Some(Box::new(left)),
        right: Some(Box::new(right)),
        value: Some(NodeValue::Operator { fun, priority, name: name.to_string() }),
    }
}

fn add(left: TreeNode, right: TreeNode) -> TreeNode {
    op(BinaryOp::Add, 1, "+", left, right)
}

fn sub(left: TreeNode, right: TreeNode) -> TreeNode {
    op(BinaryOp::Sub, 1, "-", left, right)
}

fn mul(left: TreeNode, right: TreeNode) -> TreeNode {
    op(BinaryOp::Mul, 2, "*", left, right)
}

fn pow(left: TreeNode, right: TreeNode) -> TreeNode {
    op(BinaryOp::Pow, 4, "^", left, right)
}

fn negated(operand: TreeNode) -> TreeNode {
    op(BinaryOp::Sub, 2, "-", num("0"), operand)
}

fn function(fun: UnaryOp, after: bool, name: &str, operand: TreeNode) -> TreeNode {
    TreeNode {
        left: Some(Box::new(operand)),
        right: None,
        value: Some(NodeValue::Function { fun, priority: 3, after, name: name.to_string() }),
    }
}

fn sqrt(operand: TreeNode) -> TreeNode {
    function(UnaryOp::Sqrt, false, "sqrt", operand)
}

fn factorial(operand: TreeNode) -> TreeNode {
    function(UnaryOp::Factorial, true, "!", operand)
}

fn subtree(tree: TreeNode) -> Token {
    Token::ParsedTree(Box::new(tree))
}

fn literal(text: &str) -> Token {
    Token::Constant(Number::Literal(text.to_string()))
}

fn plus() -> Token {
    Token::Operator { fun: BinaryOp::Add, priority: 1, name: "+".to_string() }
}

fn times() -> Token {
    Token::Operator { fun: BinaryOp::Mul, priority: 2, name: "*".to_string() }
}

fn no_value() -> ParseError {
    ParseError::InvalidNumber("No value".to_string())
}

#[test]
fn a_number_is_a_leaf() {
    assert_eq!(tree_of("42"), Ok(num("42")));
    assert_eq!(tree_of("pi"), Ok(constant(Number::Pi)));
    assert_eq!(tree_of("e"), Ok(constant(Number::E)));
}

#[test]
fn a_tree_alone_is_that_tree() {
    let tree = add(num("1"), num("2"));
    assert_eq!(parse(&vec![subtree(add(num("1"), num("2")))]), Ok(tree));
}

#[test]
fn the_tokens_are_left_as_they_were() {
    let before = tokens("2+3*4");
    let _ = parse(&before);
    assert_eq!(before, tokens("2+3*4"));
}

#[test]
fn the_tighter_operator_takes_the_operand_between() {
    assert_eq!(tree_of("2+3*4"), Ok(add(num("2"), mul(num("3"), num("4")))));
    assert_eq!(tree_of("2*3^2"), Ok(mul(num("2"), pow(num("3"), num("2")))));
    assert_eq!(
        tree_of("2+3*4^5"),
        Ok(add(num("2"), mul(num("3"), pow(num("4"), num("5")))))
    );
}

#[test]
fn the_looser_operator_waits() {
    assert_eq!(tree_of("2*3+4"), Ok(add(mul(num("2"), num("3")), num("4"))));
    assert_eq!(
        tree_of("2+3*4+5"),
        Ok(add(add(num("2"), mul(num("3"), num("4"))), num("5")))
    );
}

#[test]
fn operators_of_one_priority_group_from_the_left() {
    assert_eq!(tree_of("1-2-3"), Ok(sub(sub(num("1"), num("2")), num("3"))));
    assert_eq!(tree_of("1-2+3"), Ok(add(sub(num("1"), num("2")), num("3"))));
    assert_eq!(tree_of("2^3^4"), Ok(pow(pow(num("2"), num("3")), num("4"))));
}

#[test]
fn parentheses_decide_before_priorities() {
    assert_eq!(tree_of("(2+3)*4"), Ok(mul(add(num("2"), num("3")), num("4"))));
    assert_eq!(tree_of("2*(3+4)"), Ok(mul(num("2"), add(num("3"), num("4")))));
    assert_eq!(
        tree_of("(1+2)*(3+4)"),
        Ok(mul(add(num("1"), num("2")), add(num("3"), num("4"))))
    );
}

#[test]
fn grouped_operands_ignore_the_priorities() {
    // ((1 a 2) b (3 c 4)) under priorities that would group otherwise.
    for (a, b, c) in [(1, 2, 3), (3, 2, 1), (5, 5, 5), (9, 1, 9), (-4, 7, 0)] {
        let oper = |priority: i32, name: &str| Token::Operator {
            fun: BinaryOp::Add,
            priority,
            name: name.to_string(),
        };
        let text = vec![
            Token::LParen,
            literal("1"),
            oper(a, "a"),
            literal("2"),
            Token::RParen,
            oper(b, "b"),
            Token::LParen,
            literal("3"),
            oper(c, "c"),
            literal("4"),
            Token::RParen,
        ];
        let expected = op(
            BinaryOp::Add,
            b,
            "b",
            op(BinaryOp::Add, a, "a", num("1"), num("2")),
            op(BinaryOp::Add, c, "c", num("3"), num("4")),
        );
        assert_eq!(parse(&text), Ok(expected));
    }
}

#[test]
fn nesting_keeps_the_innermost() {
    assert_eq!(tree_of("((((pi))))"), Ok(constant(Number::Pi)));
    let mut text = String::new();
    for _ in 0..200 {
        text.push('(');
    }
    text.push_str("1+2");
    for _ in 0..200 {
        text.push(')');
    }
    assert_eq!(tree_of(&text), Ok(add(num("1"), num("2"))));
}

#[test]
fn parentheses_keep_the_error_of_what_they_enclose() {
    assert_eq!(tree_of("(2+)"), tree_of("2+"));
    assert_eq!(tree_of("((*3))"), tree_of("*3"));
    assert_eq!(tree_of("()"), Err(no_value()));
}

#[test]
fn a_leading_minus_subtracts_from_zero() {
    assert_eq!(tree_of("-3"), Ok(negated(num("3"))));
    assert_eq!(tree_of("-3+5"), Ok(add(negated(num("3")), num("5"))));
    assert_eq!(tree_of("-(2+3)"), Ok(negated(add(num("2"), num("3")))));
    assert_eq!(tree_of("2*(-3)"), Ok(mul(num("2"), negated(num("3")))));
}

#[test]
fn a_leading_minus_waits_for_a_tighter_operator() {
    assert_eq!(tree_of("-3^2"), Ok(negated(pow(num("3"), num("2")))));
    assert_eq!(tree_of("-3*2"), Ok(negated(mul(num("3"), num("2")))));
    assert_eq!(tree_of("-3!"), Ok(negated(factorial(num("3")))));
    assert_eq!(tree_of("-(3)+5"), Ok(add(negated(num("3")), num("5"))));
}

#[test]
fn a_function_takes_the_operand_after_it() {
    assert_eq!(tree_of("sqrt 9"), Ok(sqrt(num("9"))));
    assert_eq!(tree_of("sqrt(9)"), Ok(sqrt(num("9"))));
    assert_eq!(tree_of("sqrt(9)+1"), Ok(add(sqrt(num("9")), num("1"))));
    assert_eq!(tree_of("sqrt(9)*2"), Ok(mul(sqrt(num("9")), num("2"))));
}

#[test]
fn a_function_waits_for_a_tighter_operator() {
    assert_eq!(tree_of("sqrt(9)^2"), Ok(sqrt(pow(num("9"), num("2")))));
    assert_eq!(
        tree_of("sqrt 3 nCr 2"),
        Ok(sqrt(op(BinaryOp::Ncr, 5, "nCr", num("3"), num("2"))))
    );
    // The factorial has the priority of the function, so the function goes first.
    assert_eq!(tree_of("sqrt 9!"), Ok(factorial(sqrt(num("9")))));
}

#[test]
fn a_function_after_its_operand() {
    assert_eq!(tree_of("5!"), Ok(factorial(num("5"))));
    assert_eq!(tree_of("3!+1"), Ok(add(factorial(num("3")), num("1"))));
    assert_eq!(tree_of("5!!"), Ok(factorial(factorial(num("5")))));
    assert_eq!(tree_of("(2+1)!"), Ok(factorial(add(num("2"), num("1")))));
}

#[test]
fn a_function_after_the_second_operand() {
    assert_eq!(tree_of("2+3!"), Ok(add(num("2"), factorial(num("3")))));
    assert_eq!(tree_of("2*3!"), Ok(mul(num("2"), factorial(num("3")))));
    assert_eq!(tree_of("2^3!"), Ok(factorial(pow(num("2"), num("3")))));
}

#[test]
fn no_tokens_have_no_value() {
    assert_eq!(parse(&vec![]), Err(no_value()));
    assert_eq!(tree_of("2+()"), Err(no_value()));
}

#[test]
fn an_operator_without_its_operand_is_unexpected() {
    assert_eq!(tree_of("2+"), Err(ParseError::UnexpectedOperator("+".to_string())));
    assert_eq!(tree_of("-"), Err(ParseError::UnexpectedOperator("-".to_string())));
    assert_eq!(tree_of("+3"), Err(ParseError::UnexpectedOperator("+".to_string())));
    assert_eq!(tree_of("*"), Err(ParseError::UnexpectedOperator("*".to_string())));
    assert_eq!(tree_of("2 nCr"), Err(ParseError::UnexpectedOperator("nCr".to_string())));
}

#[test]
fn an_operator_in_the_place_of_an_operand_is_unexpected() {
    assert_eq!(tree_of("5--3"), Err(ParseError::UnexpectedOperator("-".to_string())));
    assert_eq!(tree_of("5+*3"), Err(ParseError::UnexpectedOperator("*".to_string())));
    assert_eq!(tree_of("--3"), Err(ParseError::UnexpectedOperator("-".to_string())));
    assert_eq!(tree_of("-sin(3)"), Err(ParseError::UnexpectedOperator("sin".to_string())));
    assert_eq!(tree_of("sqrt+3"), Err(ParseError::UnexpectedOperator("+".to_string())));
}

#[test]
fn a_function_in_the_place_of_an_operand_is_unexpected() {
    assert_eq!(tree_of("sqrt"), Err(ParseError::UnexpectedFunction("sqrt".to_string())));
    assert_eq!(tree_of("!"), Err(ParseError::UnexpectedFunction("!".to_string())));
    assert_eq!(tree_of("!5"), Err(ParseError::UnexpectedFunction("!".to_string())));
    assert_eq!(tree_of("1+sqrt(4)"), Err(ParseError::UnexpectedFunction("sqrt".to_string())));
    assert_eq!(tree_of("1+!"), Err(ParseError::UnexpectedFunction("!".to_string())));
    let sin = Token::Function { fun: UnaryOp::Sin, priority: 3, after: false, name: "sin".to_string() };
    let cos = Token::Function { fun: UnaryOp::Cos, priority: 3, after: false, name: "cos".to_string() };
    assert_eq!(
        parse(&vec![sin, cos, literal("1")]),
        Err(ParseError::UnexpectedFunction("cos".to_string()))
    );
}

#[test]
fn a_closing_parenthesis_that_closes_nothing_is_unexpected() {
    assert_eq!(tree_of(")"), Err(ParseError::UnexpectedRParen));
    assert_eq!(tree_of("2+3)"), Err(ParseError::UnexpectedRParen));
    assert_eq!(tree_of("2)"), Err(ParseError::UnexpectedRParen));
    assert_eq!(tree_of("2+)"), Err(ParseError::UnexpectedRParen));
    assert_eq!(tree_of("-)"), Err(ParseError::UnexpectedRParen));
    assert_eq!(tree_of("sin)"), Err(ParseError::UnexpectedRParen));
    assert_eq!(tree_of("(1))"), Err(ParseError::UnexpectedRParen));
}

#[test]
fn an_opening_parenthesis_that_nothing_closes_is_unmatched() {
    assert_eq!(tree_of("("), Err(ParseError::UnmatchedLParen));
    assert_eq!(tree_of("(2+3"), Err(ParseError::UnmatchedLParen));
    assert_eq!(tree_of("((2+3)"), Err(ParseError::UnmatchedLParen));
    assert_eq!(tree_of("2+(3"), Err(ParseError::UnmatchedLParen));
    assert_eq!(tree_of("-(3"), Err(ParseError::UnmatchedLParen));
    assert_eq!(tree_of("sqrt(3"), Err(ParseError::UnmatchedLParen));
}

#[test]
fn operands_side_by_side_are_no_product() {
    let refused = Err(ParseError::UnsupportedImplicitMultiplication);
    assert_eq!(tree_of("2(3)"), refused);
    assert_eq!(tree_of("(2)(3)"), refused);
    assert_eq!(tree_of("2pi"), refused);
    assert_eq!(tree_of("pi(2)"), refused);
    assert_eq!(tree_of("2 sqrt(4)"), refused);
    assert_eq!(tree_of("1+2(3)"), refused);
    assert_eq!(tree_of("1+2 pi"), refused);
    assert_eq!(tree_of("-3(2)"), refused);
    assert_eq!(tree_of("sqrt 4(pi)"), refused);
    assert_eq!(tree_of("2*3 e"), refused);
    assert_eq!(tree_of("5!2"), refused);
}

#[test]
fn the_trees_of_the_reducer_are_well_formed() {
    fn well_formed(tree: &TreeNode) -> bool {
        match &tree.value {
            None => false,
            Some(NodeValue::Constant(_)) => tree.left.is_none() && tree.right.is_none(),
            Some(NodeValue::Function { .. }) => {
                tree.right.is_none() && tree.left.as_ref().map_or(false, |l| well_formed(l))
            }
            Some(NodeValue::Operator { .. }) => {
                tree.left.as_ref().map_or(false, |l| well_formed(l))
                    && tree.right.as_ref().map_or(false, |r| well_formed(r))
            }
        }
    }
    for text in ["1", "-1", "1+2*3^4!", "sqrt(2)^-(3)", "((1+2)*(3-4))/5%6", "-(-(-1))", "3 nPr 2!"] {
        if let Ok(tree) = tree_of(text) {
            assert!(well_formed(&tree));
        }
    }
    assert!(tree_of("1+2*3^4!").is_ok());
    assert!(tree_of("-(-(-1))").is_ok());
}

#[test]
fn one_step_joins_operand_operator_operand() {
    let mut v = tokens("2+3");
    assert_eq!(find_and_replace(&mut v, 0), Ok(()));
    assert_eq!(v, vec![subtree(add(num("2"), num("3")))]);
}

#[test]
fn one_step_is_made_at_the_tighter_operator() {
    let mut v = tokens("2+3*4");
    assert_eq!(find_and_replace(&mut v, 0), Ok(()));
    assert_eq!(v, vec![literal("2"), plus(), subtree(mul(num("3"), num("4")))]);
    assert_eq!(find_and_replace(&mut v, 0), Ok(()));
    assert_eq!(v, vec![subtree(add(num("2"), mul(num("3"), num("4"))))]);
}

#[test]
fn one_step_at_a_later_place_leaves_what_is_before_it() {
    let mut v = tokens("2+3*4");
    assert_eq!(find_and_replace(&mut v, 2), Ok(()));
    assert_eq!(v, vec![literal("2"), plus(), subtree(mul(num("3"), num("4")))]);
}

#[test]
fn one_step_reduces_the_group_of_the_second_operand_first() {
    let mut v = tokens("2*(3+4)");
    assert_eq!(find_and_replace(&mut v, 0), Ok(()));
    assert_eq!(v, vec![literal("2"), times(), subtree(add(num("3"), num("4")))]);
}

#[test]
fn one_step_joins_before_a_closing_parenthesis() {
    let mut v = tokens("2+3)");
    assert_eq!(find_and_replace(&mut v, 0), Ok(()));
    assert_eq!(v, vec![subtree(add(num("2"), num("3"))), Token::RParen]);
    assert_eq!(find_and_replace(&mut v, 0), Err(ParseError::UnexpectedRParen));
}

#[test]
fn one_step_on_a_single_operand_makes_it_a_tree() {
    let mut v = tokens("7");
    assert_eq!(find_and_replace(&mut v, 0), Ok(()));
    assert_eq!(v, vec![subtree(num("7"))]);
    assert_eq!(find_and_replace(&mut v, 0), Ok(()));
    assert_eq!(v, vec![subtree(num("7"))]);
}

#[test]
fn one_step_past_the_end_finds_no_value() {
    let mut v = tokens("7");
    assert_eq!(find_and_replace(&mut v, 1), Err(no_value()));
    assert_eq!(find_and_replace(&mut v, usize::MAX), Err(no_value()));
    let mut none: Vec<Token> = vec![];
    assert_eq!(find_and_replace(&mut none, 0), Err(no_value()));
}

#[test]
fn a_group_becomes_one_tree() {
    let mut v = tokens("1+(2*(3+4))-5");
    assert_eq!(replace_paren(&mut v, 2), Ok(()));
    let mut expected = tokens("1+");
    expected.push(subtree(mul(num("2"), add(num("3"), num("4")))));
    expected.extend(tokens("-5"));
    assert_eq!(v, expected);
}

#[test]
fn an_inner_group_becomes_one_tree() {
    let mut v = tokens("1+(2*(3+4))-5");
    assert_eq!(replace_paren(&mut v, 5), Ok(()));
    let mut expected = tokens("1+(2*");
    expected.push(subtree(add(num("3"), num("4"))));
    expected.extend(tokens(")-5"));
    assert_eq!(v, expected);
}

#[test]
fn a_group_fails_as_what_it_encloses() {
    let mut v = tokens("(2+)");
    assert_eq!(replace_paren(&mut v, 0), Err(ParseError::UnexpectedOperator("+".to_string())));
    let mut v = tokens("()");
    assert_eq!(replace_paren(&mut v, 0), Err(no_value()));
}

#[test]
fn a_group_without_its_end_is_unmatched() {
    let mut v = tokens("(2+3");
    assert_eq!(replace_paren(&mut v, 0), Err(ParseError::UnmatchedLParen));
    let mut v = tokens("(2+3)");
    assert_eq!(replace_paren(&mut v, 4), Err(ParseError::UnmatchedLParen));
    assert_eq!(replace_paren(&mut v, 5), Err(ParseError::UnmatchedLParen));
    assert_eq!(replace_paren(&mut v, usize::MAX), Err(ParseError::UnmatchedLParen));
}

#[test]
fn reducing_twice_gives_the_same() {
    for text in ["2+3*4", "(1", "2 nCr (3!)", "-", "1+2)"] {
        assert_eq!(tree_of(text), tree_of(text));
    }
}

#[test]
fn a_clone_is_equal() {
    let tree = tree_of("-(2+3)*4!^(pi)").unwrap();
    assert_eq!(tree.clone(), tree);
    let v = tokens("-(2+3)*sqrt(4)!^(pi)");
    let copies: Vec<Token> = v.iter().map(|t| t.clone()).collect();
    assert_eq!(copies, v);
    assert_eq!(subtree(tree.clone()).clone(), subtree(tree));
}

#[test]
fn a_failing_step_leaves_the_tokens() {
    for text in [
        "--3", "5--3", "2+", "+3", ")", "2)", "2(3)", "2 pi", "sqrt", "!5", "1+sqrt(4)", "(2+3",
        "2+(3", "-(3", "sqrt(3", "(*2)+1", "2+(*3)", "2+3*(4+)", "-(+)", "sqrt()", "()",
        "1+2*3^(4", "-3^(", "(((2+)))",
    ] {
        let before = tokens(text);
        let mut v = tokens(text);
        assert!(find_and_replace(&mut v, 0).is_err());
        assert_eq!(v, before);
    }
}

#[test]
fn a_failing_step_at_a_later_place_leaves_the_tokens() {
    let before = tokens("1+2*(3+)");
    for at in 0..before.len() + 2 {
        let mut v = tokens("1+2*(3+)");
        if find_and_replace(&mut v, at).is_err() {
            assert_eq!(v, before);
        }
    }
    let mut v = tokens("1+2*(3+)");
    assert_eq!(
        find_and_replace(&mut v, 0),
        Err(ParseError::UnexpectedOperator("+".to_string()))
    );
    assert_eq!(v, before);
}

#[test]
fn a_failing_group_leaves_the_tokens() {
    let before = tokens("(*2)+1");
    let mut v = tokens("(*2)+1");
    assert_eq!(replace_paren(&mut v, 0), Err(ParseError::UnexpectedOperator("*".to_string())));
    assert_eq!(v, before);

    let before = tokens("1+(2*(3+4)");
    let mut v = tokens("1+(2*(3+4)");
    assert_eq!(replace_paren(&mut v, 2), Err(ParseError::UnmatchedLParen));
    assert_eq!(v, before);
    assert_eq!(replace_paren(&mut v, 100), Err(ParseError::UnmatchedLParen));
    assert_eq!(v, before);

    let before = tokens("(())");
    let mut v = tokens("(())");
    assert_eq!(replace_paren(&mut v, 0), Err(no_value()));
    assert_eq!(v, before);
}

#[test]
fn a_step_that_succeeds_in_a_group_changes_the_group_only() {
    let mut v = tokens("1+(2*3)-(4+)");
    assert_eq!(replace_paren(&mut v, 2), Ok(()));
    let mut expected = tokens("1+");
    expected.push(subtree(mul(num("2"), num("3"))));
    expected.extend(tokens("-(4+)"));
    assert_eq!(v, expected);
}
