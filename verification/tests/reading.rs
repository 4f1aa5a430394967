use calculator::parser::{parse, ParseError, TreeNode};
use calculator::tokeniser::{tokenise, BinaryOp, NodeValue, Number, Token};

fn tokens(text: &str) -> Vec<Token> {
    tokenise(text.to_string()).unwrap()
}

fn literal(n: usize) -> Token {
    Token::Constant(Number::Literal(n.to_string()))
}

fn operator(priority: i32, place: usize) -> Token {
    Token::Operator { fun: BinaryOp::Add, priority, name: format!("op{}", place) }
}

fn tree_of_operand(token: &Token) -> TreeNode {
    match token {
        Token::Constant(n) => {
            TreeNode { left: None, right: None, value: Some(NodeValue::Constant(n.clone())) }
        }
        Token::ParsedTree(tree) => (**tree).clone(),
        _ => panic!("no operand"),
    }
}

fn priority_of(token: &Token) -> i32 {
    match token {
        Token::Operator { priority, .. } => *priority,
        _ => panic!("no operator"),
    }
}

// The usual reading of a chain: the operator of the lowest priority is applied
// last, and of several of that priority the rightmost.
fn usual_tree(chain: &[Token]) -> TreeNode {
    if chain.len() == 1 {
        return tree_of_operand(&chain[0]);
    }
    let mut last = 1;
    let mut place = 3;
    while place < chain.len() {
        if priority_of(&chain[place]) <= priority_of(&chain[last]) {
            last = place;
        }
        place += 2;
    }
    let value = match &chain[last] {
        Token::Operator { fun, priority, name } => {
            NodeValue::Operator { fun: *fun, priority: *priority, name: name.clone() }
        }
        _ => panic!("no operator"),
    };
    TreeNode {
        left: Some(Box::new(usual_tree(&chain[..last]))),
        right: Some(Box::new(usual_tree(&chain[last + 1..]))),
        value: Some(value),
    }
}

fn chain_of(priorities: &[i32]) -> Vec<Token> {
    let mut chain = vec![literal(0)];
    for (place, priority) in priorities.iter().enumerate() {
        chain.push(operator(*priority, place + 1));
        chain.push(literal(place + 1));
    }
    chain
}

#[test]
fn every_chain_of_four_operators_has_its_usual_tree() {
    let mut count = 0;
    for a in 1..=3 {
        for b in 1..=3 {
            for c in 1..=3 {
                for d in 1..=3 {
                    let chain = chain_of(&[a, b, c, d]);
                    assert_eq!(parse(&chain), Ok(usual_tree(&chain)));
                    count += 1;
                }
            }
        }
    }
    assert_eq!(count, 81);
}

#[test]
fn long_chains_have_their_usual_tree() {
    let rising: Vec<i32> = (1..=40).collect();
    let falling: Vec<i32> = (1..=40).rev().collect();
    let level: Vec<i32> = vec![7; 40];
    let waves: Vec<i32> = (0..40).map(|i| (i * 7 % 5) - 2).collect();
    let extremes = vec![i32::MAX, i32::MIN, 0, i32::MIN, i32::MAX, -1, 1];
    for priorities in [rising, falling, level, waves, extremes] {
        let chain = chain_of(&priorities);
        assert_eq!(parse(&chain), Ok(usual_tree(&chain)));
    }
}

#[test]
fn a_chain_of_one_operand_is_that_operand() {
    let chain = chain_of(&[]);
    assert_eq!(parse(&chain), Ok(usual_tree(&chain)));
}

fn with_group(before: &str, inner: &str, after: &str) -> Result<TreeNode, ParseError> {
    let mut all = tokens(before);
    all.push(Token::LParen);
    all.extend(tokens(inner));
    all.push(Token::RParen);
    all.extend(tokens(after));
    parse(&all)
}

fn with_tree(before: &str, inner: &str, after: &str) -> Result<TreeNode, ParseError> {
    let mut all = tokens(before);
    all.push(Token::ParsedTree(Box::new(parse(&tokens(inner)).unwrap())));
    all.extend(tokens(after));
    parse(&all)
}

#[test]
fn a_group_stands_for_its_tree() {
    let contexts = [
        ("", ""),
        ("2*", ""),
        ("", "*2"),
        ("1+2*", "^3-4"),
        ("-", "+1"),
        ("sqrt", "^2"),
        ("(1+", ")*2"),
        ("((", "))"),
        ("1+(2*(3-", "))"),
        ("2^", "!"),
    ];
    for inner in ["7", "1+2", "-3", "2*(3+4)", "5!", "sqrt 16", "1+2*3^4"] {
        for (before, after) in contexts {
            let grouped = with_group(before, inner, after);
            assert!(grouped.is_ok());
            assert_eq!(grouped, with_tree(before, inner, after));
        }
    }
}

#[test]
fn a_group_stands_for_its_tree_where_the_sequence_fails() {
    let contexts = [
        ("2", ""),
        ("", "2"),
        ("1+", ")"),
        ("(1+", ""),
        ("*", ""),
        ("1+*", ""),
        ("", "+"),
        ("1 2", "+3"),
        ("", "(4)"),
        ("sin+", ""),
        ("(", ""),
        (")", ""),
    ];
    for inner in ["7", "1+2", "2*(3+4)"] {
        for (before, after) in contexts {
            let grouped = with_group(before, inner, after);
            assert!(grouped.is_err());
            assert_eq!(grouped, with_tree(before, inner, after));
        }
    }
}

#[test]
fn a_delimiter_parts_the_text() {
    let parts = ["", "12", "sin", "1.5", " 2 ", "pi", "3*4", "(e)"];
    for delimiter in "()+-*/%^!".chars() {
        for a in parts {
            for b in parts {
                let text = format!("{}{}{}", a, delimiter, b);
                let whole = tokenise(text).unwrap();
                let mut expected = tokens(a);
                expected.extend(tokens(&delimiter.to_string()));
                expected.extend(tokens(b));
                assert_eq!(whole, expected);
            }
        }
    }
}

#[test]
fn a_delimiter_parts_the_text_where_a_part_fails() {
    for delimiter in "()+-*/%^!".chars() {
        for (a, b) in [("1..2", "3"), ("foo", "3"), ("3", "1..2"), ("3", "foo"), ("x", "y"), ("$", "3")] {
            let whole = tokenise(format!("{}{}{}", a, delimiter, b));
            let first = tokenise(a.to_string());
            let expected = if first.is_err() { first } else { tokenise(b.to_string()) };
            assert!(whole.is_err());
            assert_eq!(whole, expected);
        }
    }
}
