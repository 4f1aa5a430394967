use calculator::parser::{parse, TreeNode};
use calculator::tokeniser::{BinaryOp, NodeValue, Number, Token, UnaryOp};

fn alphabet() -> Vec<Token> {
    vec![
        Token::Constant(Number::Literal("1".to_string())),
        Token::LParen,
        Token::RParen,
        Token::Operator { fun: BinaryOp::Add, priority: 1, name: "+".to_string() },
        Token::Operator { fun: BinaryOp::Sub, priority: 1, name: "-".to_string() },
        Token::Operator { fun: BinaryOp::Mul, priority: 2, name: "*".to_string() },
        Token::Operator { fun: BinaryOp::Pow, priority: 4, name: "^".to_string() },
        Token::Function { fun: UnaryOp::Sqrt, priority: 3, after: false, name: "sqrt".to_string() },
        Token::Function { fun: UnaryOp::Factorial, priority: 3, after: true, name: "!".to_string() },
    ]
}

fn is_operand(t: &Token) -> bool {
    matches!(t, Token::Constant(_) | Token::ParsedTree(_))
}

fn is_postfix(t: &Token) -> bool {
    matches!(t, Token::Function { after: true, .. })
}

fn is_prefix(t: &Token) -> bool {
    matches!(t, Token::Function { after: false, .. })
}

fn is_operator(t: &Token) -> bool {
    matches!(t, Token::Operator { .. })
}

fn is_minus(t: &Token) -> bool {
    match t {
        Token::Operator { name, .. } => name == "-",
        _ => false,
    }
}

fn balanced(s: &[Token]) -> bool {
    let mut open = 0usize;
    for t in s {
        match t {
            Token::LParen => open += 1,
            Token::RParen => {
                if open == 0 {
                    return false;
                }
                open -= 1;
            }
            _ => {}
        }
    }
    open == 0
}

fn at_start(s: &[Token], i: usize) -> bool {
    i == 0 || matches!(s[i - 1], Token::LParen)
}

fn after_value(s: &[Token], i: usize) -> bool {
    i >= 1
        && (is_operand(&s[i - 1]) || is_postfix(&s[i - 1]) || matches!(s[i - 1], Token::RParen))
}

fn before_value(s: &[Token], i: usize) -> bool {
    i + 1 < s.len() && (is_operand(&s[i + 1]) || matches!(s[i + 1], Token::LParen))
}

fn value_place(s: &[Token], i: usize) -> bool {
    at_start(s, i) || (i >= 1 && (is_operator(&s[i - 1]) || is_prefix(&s[i - 1])))
}

fn fits(s: &[Token], i: usize) -> bool {
    match &s[i] {
        Token::Constant(_) | Token::ParsedTree(_) | Token::LParen => value_place(s, i),
        Token::RParen => after_value(s, i),
        Token::Operator { .. } => {
            (after_value(s, i) || (at_start(s, i) && is_minus(&s[i]))) && before_value(s, i)
        }
        Token::Function { after, .. } => {
            if *after {
                after_value(s, i)
            } else {
                at_start(s, i) && before_value(s, i)
            }
        }
    }
}

fn is_well_formed(s: &[Token]) -> bool {
    !s.is_empty() && balanced(s) && (0..s.len()).all(|i| fits(s, i)) && after_value(s, s.len())
}

fn priority_of(t: &Token) -> i32 {
    match t {
        Token::Operator { priority, .. } => *priority,
        Token::Function { priority, .. } => *priority,
        _ => 0,
    }
}

fn value_of(t: &Token) -> Option<NodeValue> {
    match t {
        Token::Operator { fun, priority, name } => {
            Some(NodeValue::Operator { fun: *fun, priority: *priority, name: name.clone() })
        }
        Token::Function { fun, priority, after, name } => Some(NodeValue::Function {
            fun: *fun,
            priority: *priority,
            after: *after,
            name: name.clone(),
        }),
        Token::Constant(n) => Some(NodeValue::Constant(n.clone())),
        _ => None,
    }
}

fn node(value: Option<NodeValue>, left: Option<TreeNode>, right: Option<TreeNode>) -> TreeNode {
    TreeNode { left: left.map(Box::new), right: right.map(Box::new), value }
}

// The usual reading of a phrase without parentheses: the application applied
// last is the leftmost that all to the right of it outrank; a function after
// its operand can be applied last only where it stands at the end.
fn usual_tree(s: &[Token]) -> TreeNode {
    if s.len() == 1 {
        return match &s[0] {
            Token::ParsedTree(tree) => (**tree).clone(),
            other => node(value_of(other), None, None),
        };
    }
    let applied = |i: usize| !is_operand(&s[i]);
    let last = (0..s.len())
        .find(|&i| {
            applied(i)
                && (!is_postfix(&s[i]) || i == s.len() - 1)
                && (i + 1..s.len()).all(|k| !applied(k) || priority_of(&s[i]) < priority_of(&s[k]))
        })
        .unwrap();
    if last == 0 {
        let operand = usual_tree(&s[1..]);
        if is_operator(&s[0]) {
            let zero = node(
                Some(NodeValue::Constant(Number::Literal("0".to_string()))),
                None,
                None,
            );
            let minus =
                NodeValue::Operator { fun: BinaryOp::Sub, priority: 2, name: "-".to_string() };
            node(Some(minus), Some(zero), Some(operand))
        } else {
            node(value_of(&s[0]), Some(operand), None)
        }
    } else if is_operator(&s[last]) {
        node(value_of(&s[last]), Some(usual_tree(&s[..last])), Some(usual_tree(&s[last + 1..])))
    } else {
        node(value_of(&s[last]), Some(usual_tree(&s[..last])), None)
    }
}

// The usual reading of a well-formed sequence: each group is read by itself
// and then stands as one operand.
fn reading(s: &[Token]) -> TreeNode {
    let mut phrase: Vec<Token> = vec![];
    let mut i = 0;
    while i < s.len() {
        if matches!(s[i], Token::LParen) {
            let mut depth = 1;
            let mut end = i + 1;
            while depth > 0 {
                match s[end] {
                    Token::LParen => depth += 1,
                    Token::RParen => depth -= 1,
                    _ => {}
                }
                end += 1;
            }
            phrase.push(Token::ParsedTree(Box::new(reading(&s[i + 1..end - 1]))));
            i = end;
        } else {
            phrase.push(s[i].clone());
            i += 1;
        }
    }
    usual_tree(&phrase)
}

fn for_each_sequence(longest: usize, check: &mut dyn FnMut(&[Token])) {
    let letters = alphabet();
    let mut places: Vec<usize> = vec![];
    loop {
        let s: Vec<Token> = places.iter().map(|&p| letters[p].clone()).collect();
        check(&s);
        let mut at = 0;
        loop {
            if at == places.len() {
                places.push(0);
                break;
            }
            places[at] += 1;
            if places[at] < letters.len() {
                break;
            }
            places[at] = 0;
            at += 1;
        }
        if places.len() > longest {
            return;
        }
    }
}

#[test]
fn a_sequence_has_a_tree_if_and_only_if_it_is_well_formed() {
    let mut seen = 0;
    let mut accepted = 0;
    for_each_sequence(6, &mut |s| {
        seen += 1;
        let tree = parse(&s.to_vec());
        assert_eq!(tree.is_ok(), is_well_formed(s));
        if tree.is_ok() {
            accepted += 1;
        }
    });
    assert_eq!(seen, 1 + 9 + 81 + 729 + 6561 + 59049 + 531441);
    assert_eq!(accepted, 352);
}

#[test]
fn a_well_formed_sequence_has_the_tree_of_its_usual_reading() {
    let mut accepted = 0;
    for_each_sequence(6, &mut |s| {
        if is_well_formed(s) {
            accepted += 1;
            assert_eq!(parse(&s.to_vec()), Ok(reading(s)));
        }
    });
    assert_eq!(accepted, 352);
}

#[test]
fn longer_well_formed_sequences_have_the_tree_of_their_usual_reading() {
    let letters = alphabet();
    let words = |text: &str| -> Vec<Token> {
        text.chars()
            .map(|c| match c {
                '1' => letters[0].clone(),
                '(' => letters[1].clone(),
                ')' => letters[2].clone(),
                '+' => letters[3].clone(),
                '-' => letters[4].clone(),
                '*' => letters[5].clone(),
                '^' => letters[6].clone(),
                's' => letters[7].clone(),
                '!' => letters[8].clone(),
                _ => panic!("no token"),
            })
            .collect()
    };
    for text in [
        "1+1*1^1!-1",
        "-1^1!*1+1!!",
        "s1^1*1-1",
        "s(1+1)^(-1!)*(s(1)!)",
        "((1+1)*(1-1))^((1))!",
        "-(-(-(1!)))!+1*1",
        "1^1^1*1*1+1+1-1!",
        "1!^1!*1!+1!",
        "s1!^1",
        "-1-1-1",
    ] {
        let s = words(text);
        assert!(is_well_formed(&s));
        assert_eq!(parse(&s), Ok(reading(&s)));
    }
}

// What a tree holds, as it is written: what a node holds stands between what
// its children hold, and a function that takes the operand after it stands
// before them.
fn written(tree: &TreeNode, out: &mut Vec<NodeValue>) {
    let before = matches!(tree.value, Some(NodeValue::Function { after: false, .. }));
    if before {
        out.push(tree.value.clone().unwrap());
    }
    if let Some(left) = &tree.left {
        written(left, out);
    }
    if !before {
        if let Some(value) = &tree.value {
            out.push(value.clone());
        }
    }
    if let Some(right) = &tree.right {
        written(right, out);
    }
}

// What the tokens hold, as it is written: a parenthesis nothing, and a minus
// at a start the subtraction from zero that it stands for.
fn spelling(s: &[Token]) -> Vec<NodeValue> {
    let mut out = vec![];
    for i in 0..s.len() {
        match &s[i] {
            Token::LParen | Token::RParen => {}
            Token::ParsedTree(tree) => written(tree, &mut out),
            Token::Operator { .. } if at_start(s, i) && is_minus(&s[i]) => {
                out.push(NodeValue::Constant(Number::Literal("0".to_string())));
                out.push(NodeValue::Operator {
                    fun: BinaryOp::Sub,
                    priority: 2,
                    name: "-".to_string(),
                });
            }
            other => out.push(value_of(other).unwrap()),
        }
    }
    out
}

#[test]
fn the_tree_holds_what_the_tokens_hold_in_the_same_order() {
    let mut accepted = 0;
    for_each_sequence(6, &mut |s| {
        if let Ok(tree) = parse(&s.to_vec()) {
            accepted += 1;
            let mut held = vec![];
            written(&tree, &mut held);
            assert_eq!(held, spelling(s));
        }
    });
    assert_eq!(accepted, 352);
}
