//! The precedence reducer and the tree evaluator.

use crate::tokeniser::{
    token_views, BinaryOp, NodeValue, Number, NumberView, Token, TokenView, UnaryOp, ValueView,
};
use crate::acceptance::is_expression;
use crate::reading::{lemma_tree_is_usual_reading, reading};
use crate::shape::{lemma_resolve_keeps_shape, trees_well_formed, well_formed};
use vstd::prelude::*;

verus! {

/// A node of a binary expression tree. In the trees that the reducer builds
/// a node that holds an operator has two children, a node that holds a
/// function has one, the left one, and a node that holds a number has none
/// (see `shape::well_formed`).
#[derive(Debug, PartialEq)]
pub struct TreeNode {
    pub left: Option<Box<TreeNode>>,
    pub right: Option<Box<TreeNode>>,
    pub value: Option<NodeValue>,
}

/// A tree as a mathematical value: names and literals by their characters.
pub struct TreeView {
    pub left: Option<Box<TreeView>>,
    pub right: Option<Box<TreeView>>,
    pub value: Option<ValueView>,
}

impl TreeNode {
    /// The tree as a mathematical value: names and literals by their characters.
    pub open spec fn model(self) -> TreeView
        decreases self,
    {
        TreeView {
            left: match self.left {
                Some(l) => Some(Box::new((*l).model())),
                None => None,
            },
            right: match self.right {
                Some(r) => Some(Box::new((*r).model())),
                None => None,
            },
            value: match self.value {
                Some(v) => Some(v@),
                None => None,
            },
        }
    }
}

impl View for TreeNode {
    type V = TreeView;

    open spec fn view(&self) -> TreeView {
        self.model()
    }
}

impl Clone for TreeNode {
    fn clone(&self) -> (r: Self)
        ensures
            r == *self,
        decreases self,
    {
        let left = match &self.left {
            Some(l) => Some(Box::new((**l).clone())),
            None => None,
        };
        let right = match &self.right {
            Some(r) => Some(Box::new((**r).clone())),
            None => None,
        };
        let value = match &self.value {
            Some(v) => Some(v.clone()),
            None => None,
        };
        TreeNode { left, right, value }
    }
}

/// Why a sequence of tokens is no expression, or a tree has no value.
#[derive(Debug, PartialEq)]
pub enum ParseError {
    /// A value is missing where one is needed.
    InvalidNumber(String),
    /// An operator stands where an operand is needed, or lacks an operand.
    UnexpectedOperator(String),
    /// A function stands where an operand is needed, or lacks its operand.
    UnexpectedFunction(String),
    /// A closing parenthesis that closes nothing.
    UnexpectedRParen,
    /// An opening parenthesis that nothing closes.
    UnmatchedLParen,
    /// Two operands side by side: a product without its operator is not read
    /// as one.
    UnsupportedImplicitMultiplication,
}

/// A parsing error as a mathematical value: texts by their characters.
pub enum ParseErrorView {
    InvalidNumber(Seq<char>),
    UnexpectedOperator(Seq<char>),
    UnexpectedFunction(Seq<char>),
    UnexpectedRParen,
    UnmatchedLParen,
    UnsupportedImplicitMultiplication,
}

impl View for ParseError {
    type V = ParseErrorView;

    open spec fn view(&self) -> ParseErrorView {
        match self {
            ParseError::InvalidNumber(s) => ParseErrorView::InvalidNumber(s@),
            ParseError::UnexpectedOperator(s) => ParseErrorView::UnexpectedOperator(s@),
            ParseError::UnexpectedFunction(s) => ParseErrorView::UnexpectedFunction(s@),
            ParseError::UnexpectedRParen => ParseErrorView::UnexpectedRParen,
            ParseError::UnmatchedLParen => ParseErrorView::UnmatchedLParen,
            ParseError::UnsupportedImplicitMultiplication =>
                ParseErrorView::UnsupportedImplicitMultiplication,
        }
    }
}

/// The error of a value that is missing.
pub open spec fn no_value() -> ParseErrorView {
    ParseErrorView::InvalidNumber("No value"@)
}

/// A tree of one node, which holds a number.
pub open spec fn leaf(n: NumberView) -> TreeView {
    TreeView { left: None, right: None, value: Some(ValueView::Constant(n)) }
}

/// A node with one child, which by rule is its left one.
pub open spec fn unary_node(value: Option<ValueView>, operand: TreeView) -> TreeView {
    TreeView { left: Some(Box::new(operand)), right: None, value }
}

/// A node with two children.
pub open spec fn binary_node(value: Option<ValueView>, left: TreeView, right: TreeView) -> TreeView {
    TreeView { left: Some(Box::new(left)), right: Some(Box::new(right)), value }
}

/// The operator of the subtraction that a leading minus stands for.
pub open spec fn minus() -> ValueView {
    ValueView::Operator { fun: BinaryOp::Sub, priority: 2, name: "-"@ }
}

/// The number that a leading minus subtracts from.
pub open spec fn zero() -> NumberView {
    NumberView::Literal("0"@)
}

/// A token that holds a value: a number, or a tree that was built already.
pub open spec fn is_operand(t: TokenView) -> bool {
    t is Constant || t is ParsedTree
}

/// The tree that an operand stands for.
pub open spec fn operand_tree(t: TokenView) -> TreeView {
    match t {
        TokenView::ParsedTree(tree) => tree,
        TokenView::Constant(n) => leaf(n),
        _ => TreeView { left: None, right: None, value: None },
    }
}

/// What a node holds that was made of this token; a parenthesis or a tree
/// gives none.
pub open spec fn node_value(t: TokenView) -> Option<ValueView> {
    match t {
        TokenView::Operator { fun, priority, name } => Some(
            ValueView::Operator { fun, priority, name },
        ),
        TokenView::Function { fun, priority, after, name } => Some(
            ValueView::Function { fun, priority, after, name },
        ),
        TokenView::Constant(n) => Some(ValueView::Constant(n)),
        _ => None,
    }
}

/// Whether the token after an operand takes that operand away from an
/// operation of the given priority: an operator, or a function that stands
/// after its operand, of strictly higher priority.
pub open spec fn binds_tighter(t: TokenView, priority: i32) -> bool {
    match t {
        TokenView::Operator { priority: p, .. } => p > priority,
        TokenView::Function { priority: p, after, .. } => after && p > priority,
        _ => false,
    }
}

/// Whether the operand at `at` is followed by a token that binds it tighter.
pub open spec fn deferred(s: Seq<TokenView>, at: int, priority: i32) -> bool {
    at + 1 < s.len() && binds_tighter(s[at + 1], priority)
}

/// The sequence with the `width` tokens from `at` on replaced by one tree.
pub open spec fn replace(s: Seq<TokenView>, at: int, width: int, tree: TreeView) -> Seq<TokenView> {
    s.subrange(0, at).push(TokenView::ParsedTree(tree)) + s.subrange(at + width, s.len() as int)
}

/// The place, from `i` on, of the parenthesis that closes the one which
/// `depth` parentheses are open inside of.
pub open spec fn closing(s: Seq<TokenView>, i: int, depth: nat) -> Option<int>
    decreases s.len() - i,
{
    if i < 0 || i >= s.len() || depth == 0 {
        None
    } else if s[i] is LParen {
        closing(s, i + 1, depth + 1)
    } else if s[i] is RParen {
        if depth == 1 {
            Some(i)
        } else {
            closing(s, i + 1, (depth - 1) as nat)
        }
    } else {
        closing(s, i + 1, depth)
    }
}

/// The closing parenthesis stands at or after the place where the search
/// began.
pub proof fn lemma_closing_in_range(s: Seq<TokenView>, i: int, depth: nat)
    ensures
        closing(s, i, depth) matches Some(end) ==> i <= end < s.len() && s[end] is RParen,
    decreases s.len() - i,
{
    if 0 <= i < s.len() && depth > 0 {
        if s[i] is LParen {
            lemma_closing_in_range(s, i + 1, depth + 1);
        } else if s[i] is RParen {
            if depth > 1 {
                lemma_closing_in_range(s, i + 1, (depth - 1) as nat);
            }
        } else {
            lemma_closing_in_range(s, i + 1, depth);
        }
    }
}

/// One reduction at `at`: the sequence after it, in which one tree stands
/// for a window of the tokens, or the error that the tokens at `at` show.
pub open spec fn step(s: Seq<TokenView>, at: int) -> Result<Seq<TokenView>, ParseErrorView>
    decreases s.len(), 1int, 2 * (s.len() - at) + 1,
{
    if at < 0 || at >= s.len() {
        Err(no_value())
    } else {
        match s[at] {
            TokenView::LParen => group(s, at),
            TokenView::RParen => Err(ParseErrorView::UnexpectedRParen),
            TokenView::Constant(_) | TokenView::ParsedTree(_) => from_operand(s, at),
            TokenView::Operator { .. } => from_operator(s, at),
            TokenView::Function { .. } => from_function(s, at),
        }
    }
}

/// A parenthesis at `at`: what it encloses is reduced by itself to one tree,
/// which then stands for the whole group, parentheses included. The closing
/// parenthesis is found after `at` and within the sequence (see
/// `lemma_closing_in_range`), so the last case comes for no place in the
/// sequence.
pub open spec fn group(s: Seq<TokenView>, at: int) -> Result<Seq<TokenView>, ParseErrorView>
    decreases s.len(), 0int, 0int,
{
    match closing(s, at + 1, 1) {
        None => Err(ParseErrorView::UnmatchedLParen),
        Some(end) => {
            if 0 <= at < end < s.len() {
                match resolve(s.subrange(at + 1, end)) {
                    Err(e) => Err(e),
                    Ok(tree) => Ok(replace(s, at, end - at + 1, tree)),
                }
            } else {
                Err(ParseErrorView::UnmatchedLParen)
            }
        },
    }
}

/// An operand at `at`. Alone, it becomes a tree. Before a function that
/// stands after its operand, the two become a tree. Before an operator and a
/// second operand, the three become a tree, unless what follows binds the
/// second operand tighter: then the reduction is made there.
pub open spec fn from_operand(s: Seq<TokenView>, at: int) -> Result<Seq<TokenView>, ParseErrorView>
    recommends
        0 <= at < s.len(),
    decreases s.len(), 1int, 2 * (s.len() - at),
{
    if at < 0 || at >= s.len() {
        Err(no_value())
    } else if at + 1 >= s.len() {
        Ok(replace(s, at, 1, operand_tree(s[at])))
    } else {
        match s[at + 1] {
            TokenView::RParen => Err(ParseErrorView::UnexpectedRParen),
            TokenView::Function { after: true, .. } => Ok(
                replace(s, at, 2, unary_node(node_value(s[at + 1]), operand_tree(s[at]))),
            ),
            TokenView::Operator { priority, name, .. } => {
                if at + 2 >= s.len() {
                    Err(ParseErrorView::UnexpectedOperator(name))
                } else {
                    match s[at + 2] {
                        TokenView::LParen => group(s, at + 2),
                        TokenView::RParen => Err(ParseErrorView::UnexpectedRParen),
                        TokenView::Operator { name: found, .. } => Err(
                            ParseErrorView::UnexpectedOperator(found),
                        ),
                        TokenView::Function { name: found, .. } => Err(
                            ParseErrorView::UnexpectedFunction(found),
                        ),
                        TokenView::Constant(_) | TokenView::ParsedTree(_) => {
                            if deferred(s, at + 2, priority) {
                                step(s, at + 2)
                            } else {
                                Ok(
                                    replace(
                                        s,
                                        at,
                                        3,
                                        binary_node(
                                            node_value(s[at + 1]),
                                            operand_tree(s[at]),
                                            operand_tree(s[at + 2]),
                                        ),
                                    ),
                                )
                            }
                        },
                    }
                }
            },
            _ => Err(ParseErrorView::UnsupportedImplicitMultiplication),
        }
    }
}

/// An operator at `at`. Only a minus can begin an expression: it subtracts
/// the operand after it from zero, unless what follows binds that operand
/// tighter: then the reduction is made there.
pub open spec fn from_operator(s: Seq<TokenView>, at: int) -> Result<Seq<TokenView>, ParseErrorView>
    recommends
        0 <= at < s.len(),
        s[at] is Operator,
    decreases s.len(), 1int, 2 * (s.len() - at),
{
    if at < 0 || at >= s.len() {
        Err(no_value())
    } else {
        match s[at] {
            TokenView::Operator { priority, name, .. } => {
                if name != "-"@ || at + 1 >= s.len() {
                    Err(ParseErrorView::UnexpectedOperator(name))
                } else {
                    match s[at + 1] {
                        TokenView::LParen => group(s, at + 1),
                        TokenView::RParen => Err(ParseErrorView::UnexpectedRParen),
                        TokenView::Operator { name: found, .. } => Err(
                            ParseErrorView::UnexpectedOperator(found),
                        ),
                        TokenView::Function { name: found, .. } => Err(
                            ParseErrorView::UnexpectedOperator(found),
                        ),
                        TokenView::Constant(_) | TokenView::ParsedTree(_) => {
                            if deferred(s, at + 1, priority) {
                                step(s, at + 1)
                            } else {
                                Ok(
                                    replace(
                                        s,
                                        at,
                                        2,
                                        binary_node(
                                            Some(minus()),
                                            leaf(zero()),
                                            operand_tree(s[at + 1]),
                                        ),
                                    ),
                                )
                            }
                        },
                    }
                }
            },
            _ => Err(no_value()),
        }
    }
}

/// A function at `at`. One that stands before its operand becomes a tree
/// with the operand after it, unless what follows binds that operand
/// tighter: then the reduction is made there.
pub open spec fn from_function(s: Seq<TokenView>, at: int) -> Result<Seq<TokenView>, ParseErrorView>
    recommends
        0 <= at < s.len(),
        s[at] is Function,
    decreases s.len(), 1int, 2 * (s.len() - at),
{
    if at < 0 || at >= s.len() {
        Err(no_value())
    } else {
        match s[at] {
            TokenView::Function { priority, after, name, .. } => {
                if after || at + 1 >= s.len() {
                    Err(ParseErrorView::UnexpectedFunction(name))
                } else {
                    match s[at + 1] {
                        TokenView::LParen => group(s, at + 1),
                        TokenView::RParen => Err(ParseErrorView::UnexpectedRParen),
                        TokenView::Operator { name: found, .. } => Err(
                            ParseErrorView::UnexpectedOperator(found),
                        ),
                        TokenView::Function { name: found, .. } => Err(
                            ParseErrorView::UnexpectedFunction(found),
                        ),
                        TokenView::Constant(_) | TokenView::ParsedTree(_) => {
                            if deferred(s, at + 1, priority) {
                                step(s, at + 1)
                            } else {
                                Ok(
                                    replace(
                                        s,
                                        at,
                                        2,
                                        unary_node(node_value(s[at]), operand_tree(s[at + 1])),
                                    ),
                                )
                            }
                        },
                    }
                }
            },
            _ => Err(no_value()),
        }
    }
}

/// The tree of a whole sequence: reductions at its start, one after another,
/// until one operand is left. Each reduction shortens the sequence (see
/// `lemma_step_shortens`), so the last case never comes.
pub open spec fn resolve(s: Seq<TokenView>) -> Result<TreeView, ParseErrorView>
    decreases s.len(), 2int, 0int,
{
    if s.len() == 0 {
        Err(no_value())
    } else if s.len() == 1 && is_operand(s[0]) {
        Ok(operand_tree(s[0]))
    } else {
        match step(s, 0) {
            Err(e) => Err(e),
            Ok(next) => if next.len() < s.len() {
                resolve(next)
            } else {
                Err(no_value())
            },
        }
    }
}

/// What a reduction leaves, by the views of the tokens and of the error.
pub open spec fn reduced(r: Result<(), ParseError>, tokens: Seq<Token>) -> Result<
    Seq<TokenView>,
    ParseErrorView,
> {
    match r {
        Ok(()) => Ok(token_views(tokens)),
        Err(e) => Err(e@),
    }
}

/// What `parse` returns, by the views of the tree and of the error.
pub open spec fn parsed(r: Result<TreeNode, ParseError>) -> Result<TreeView, ParseErrorView> {
    match r {
        Ok(tree) => Ok(tree@),
        Err(e) => Err(e@),
    }
}

/// The error of a value that is missing.
fn missing_value() -> (e: ParseError)
    ensures
        e@ == no_value(),
{
    ParseError::InvalidNumber("No value".to_owned())
}

/// Whether a token is an operand.
fn holds_value(t: &Token) -> (b: bool)
    ensures
        b == is_operand(t@),
{
    match t {
        Token::Constant(_) | Token::ParsedTree(_) => true,
        _ => false,
    }
}

/// Whether the token after the operand at `at` binds that operand tighter
/// than an operation of the given priority.
fn is_deferred(vec: &Vec<Token>, at: usize, priority: i32) -> (b: bool)
    requires
        at < vec.len(),
    ensures
        b == deferred(token_views(vec@), at as int, priority),
{
    if at + 1 < vec.len() {
        match &vec[at + 1] {
            Token::Operator { priority: p, .. } => *p > priority,
            Token::Function { priority: p, after, .. } => *after && *p > priority,
            _ => false,
        }
    } else {
        false
    }
}

/// A tree of one node, which holds a number.
fn leaf_node(n: Number) -> (tree: TreeNode)
    ensures
        tree@ == leaf(n@),
{
    TreeNode { left: None, right: None, value: Some(NodeValue::Constant(n)) }
}

/// The tree that an operand stands for.
fn into_tree(t: Token) -> (tree: TreeNode)
    ensures
        tree@ == operand_tree(t@),
{
    match t {
        Token::ParsedTree(tree) => *tree,
        Token::Constant(n) => leaf_node(n),
        _ => TreeNode { left: None, right: None, value: None },
    }
}

/// What a node holds that is made of this token.
fn into_value(t: Token) -> (value: Option<NodeValue>)
    ensures
        match value {
            Some(v) => node_value(t@) == Some(v@),
            None => node_value(t@) is None,
        },
{
    match t {
        Token::Operator { fun, priority, name } => Some(NodeValue::Operator { fun, priority, name }),
        Token::Function { fun, priority, after, name } => Some(
            NodeValue::Function { fun, priority, after, name },
        ),
        Token::Constant(n) => Some(NodeValue::Constant(n)),
        _ => None,
    }
}

/// Puts one tree in the place of the operand at `at`, the operator after it
/// and the operand after that.
fn replace_three(vec: &mut Vec<Token>, at: usize)
    requires
        at + 2 < old(vec).len(),
    ensures
        token_views(final(vec)@) == replace(
            token_views(old(vec)@),
            at as int,
            3,
            binary_node(
                node_value(old(vec)@[at + 1]@),
                operand_tree(old(vec)@[at as int]@),
                operand_tree(old(vec)@[at + 2]@),
            ),
        ),
{
    let left = vec.remove(at);
    let value = vec.remove(at);
    let right = vec.remove(at);
    let tree = TreeNode {
        left: Some(Box::new(into_tree(left))),
        right: Some(Box::new(into_tree(right))),
        value: into_value(value),
    };
    vec.insert(at, Token::ParsedTree(Box::new(tree)));
    assert(token_views(vec@) =~= replace(token_views(old(vec)@), at as int, 3, tree@));
}

/// Puts one tree in the place of the two tokens at `at`: the operand is the
/// first of them if `after`, and else the second; the other is the function.
fn replace_two(vec: &mut Vec<Token>, at: usize, after: bool)
    requires
        at + 1 < old(vec).len(),
    ensures
        token_views(final(vec)@) == replace(
            token_views(old(vec)@),
            at as int,
            2,
            if after {
                unary_node(node_value(old(vec)@[at + 1]@), operand_tree(old(vec)@[at as int]@))
            } else {
                unary_node(node_value(old(vec)@[at as int]@), operand_tree(old(vec)@[at + 1]@))
            },
        ),
{
    let first = vec.remove(at);
    let second = vec.remove(at);
    let tree = if after {
        TreeNode { left: Some(Box::new(into_tree(first))), right: None, value: into_value(second) }
    } else {
        TreeNode { left: Some(Box::new(into_tree(second))), right: None, value: into_value(first) }
    };
    vec.insert(at, Token::ParsedTree(Box::new(tree)));
    assert(token_views(vec@) =~= replace(token_views(old(vec)@), at as int, 2, tree@));
}

/// Puts the subtraction from zero in the place of the minus at `at` and the
/// operand after it.
fn replace_minus(vec: &mut Vec<Token>, at: usize)
    requires
        at + 1 < old(vec).len(),
    ensures
        token_views(final(vec)@) == replace(
            token_views(old(vec)@),
            at as int,
            2,
            binary_node(Some(minus()), leaf(zero()), operand_tree(old(vec)@[at + 1]@)),
        ),
{
    let _ = vec.remove(at);
    let operand = vec.remove(at);
    let tree = TreeNode {
        left: Some(Box::new(leaf_node(Number::Literal("0".to_owned())))),
        right: Some(Box::new(into_tree(operand))),
        value: Some(NodeValue::Operator { fun: BinaryOp::Sub, priority: 2, name: "-".to_owned() }),
    };
    vec.insert(at, Token::ParsedTree(Box::new(tree)));
    assert(token_views(vec@) =~= replace(token_views(old(vec)@), at as int, 2, tree@));
}

/// Finds the parenthesis that closes the one before `from`.
fn find_closing(vec: &Vec<Token>, from: usize) -> (end: Option<usize>)
    requires
        from >= 1,
    ensures
        match end {
            Some(e) => closing(token_views(vec@), from as int, 1) == Some(e as int),
            None => closing(token_views(vec@), from as int, 1) is None,
        },
{
    let mut i = from;
    let mut depth: usize = 1;
    while i < vec.len()
        invariant
            1 <= from <= i,
            1 <= depth <= i - from + 1,
            closing(token_views(vec@), i as int, depth as nat) == closing(
                token_views(vec@),
                from as int,
                1,
            ),
        decreases vec.len() - i,
    {
        match &vec[i] {
            Token::LParen => {
                depth = depth + 1;
            },
            Token::RParen => {
                if depth == 1 {
                    return Some(i);
                }
                depth = depth - 1;
            },
            _ => {},
        }
        i = i + 1;
    }
    None
}

/// A reduction never lengthens the sequence, and shortens it unless it was
/// made at the last token.
pub proof fn lemma_step_shortens(s: Seq<TokenView>, at: int)
    requires
        0 <= at < s.len(),
    ensures
        step(s, at) matches Ok(next) ==> next.len() <= s.len() && (at + 1 < s.len()
            ==> next.len() < s.len()),
    decreases s.len() - at,
{
    lemma_closing_in_range(s, at + 1, 1);
    lemma_closing_in_range(s, at + 2, 1);
    lemma_closing_in_range(s, at + 3, 1);
    match s[at] {
        TokenView::Constant(_) | TokenView::ParsedTree(_) => {
            if at + 2 < s.len() && is_operand(s[at + 2]) {
                lemma_step_shortens(s, at + 2);
            }
        },
        TokenView::Operator { .. } | TokenView::Function { .. } => {
            if at + 1 < s.len() && is_operand(s[at + 1]) {
                lemma_step_shortens(s, at + 1);
            }
        },
        _ => {},
    }
}

/// A copy of the tokens from `from` up to `to`.
fn copy_of(vec: &Vec<Token>, from: usize, to: usize) -> (part: Vec<Token>)
    requires
        from <= to <= vec.len(),
    ensures
        part@ == vec@.subrange(from as int, to as int),
{
    let mut part: Vec<Token> = Vec::new();
    let mut i: usize = from;
    while i < to
        invariant
            from <= i <= to <= vec.len(),
            part@ == vec@.subrange(from as int, i as int),
        decreases to - i,
    {
        part.push(vec[i].clone());
        assert(vec@.subrange(from as int, i + 1) == vec@.subrange(from as int, i as int).push(
            vec@[i as int],
        ));
        i = i + 1;
    }
    part
}

/// Reduces a whole sequence to one tree.
fn reduce(vec: Vec<Token>) -> (r: Result<TreeNode, ParseError>)
    ensures
        parsed(r) == resolve(token_views(vec@)),
    decreases vec.len(), 2int, 0int,
{
    let mut tokens = vec;
    loop
        invariant
            tokens.len() <= vec.len(),
            resolve(token_views(tokens@)) == resolve(token_views(vec@)),
        decreases tokens.len(),
    {
        if tokens.len() == 0 {
            return Err(missing_value());
        }
        if tokens.len() == 1 && holds_value(&tokens[0]) {
            let last = tokens.remove(0);
            return Ok(into_tree(last));
        }
        proof {
            lemma_step_shortens(token_views(tokens@), 0);
        }
        match find_and_replace(&mut tokens, 0) {
            Ok(()) => {},
            Err(e) => {
                return Err(e);
            },
        }
    }
}

/// Builds the tree of a sequence of tokens, which it leaves as it is: the
/// tree that the reductions make, one after another. There is a tree if and
/// only if the sequence is an expression, and it is the tree of the usual
/// reading of the sequence. Where the trees among the tokens are well-formed,
/// so is the tree.
pub fn parse(vec: &Vec<Token>) -> (r: Result<TreeNode, ParseError>)
    ensures
        parsed(r) == resolve(token_views(vec@)),
        r is Ok <==> is_expression(token_views(vec@)),
        r matches Ok(tree) ==> tree@ == reading(token_views(vec@)),
        trees_well_formed(token_views(vec@)) ==> (r matches Ok(tree) ==> well_formed(tree@)),
{
    proof {
        lemma_tree_is_usual_reading(token_views(vec@));
        if trees_well_formed(token_views(vec@)) {
            lemma_resolve_keeps_shape(token_views(vec@));
        }
    }
    let tokens = copy_of(vec, 0, vec.len());
    assert(vec@.subrange(0, vec@.len() as int) == vec@);
    reduce(tokens)
}

/// Makes one reduction at `at`, or fails with what stands in the way and
/// leaves the sequence as it was.
pub fn find_and_replace(vec: &mut Vec<Token>, at: usize) -> (r: Result<(), ParseError>)
    ensures
        reduced(r, final(vec)@) == step(token_views(old(vec)@), at as int),
        r is Err ==> final(vec)@ == old(vec)@,
    decreases old(vec).len(), 1int, 2 * (old(vec).len() - at) + 1,
{
    if at >= vec.len() {
        return Err(missing_value());
    }
    match &vec[at] {
        Token::LParen => replace_paren(vec, at),
        Token::RParen => Err(ParseError::UnexpectedRParen),
        Token::Constant(_) | Token::ParsedTree(_) => reduce_operand(vec, at),
        Token::Operator { .. } => reduce_operator(vec, at),
        Token::Function { .. } => reduce_function(vec, at),
    }
}

/// Makes the reduction that begins with the operand at `at`.
fn reduce_operand(vec: &mut Vec<Token>, at: usize) -> (r: Result<(), ParseError>)
    requires
        at < old(vec).len(),
    ensures
        reduced(r, final(vec)@) == from_operand(token_views(old(vec)@), at as int),
        r is Err ==> final(vec)@ == old(vec)@,
    decreases old(vec).len(), 1int, 2 * (old(vec).len() - at),
{
    if at + 1 >= vec.len() {
        let operand = vec.remove(at);
        let tree = into_tree(operand);
        vec.insert(at, Token::ParsedTree(Box::new(tree)));
        assert(token_views(vec@) =~= replace(token_views(old(vec)@), at as int, 1, tree@));
        return Ok(());
    }
    match &vec[at + 1] {
        Token::RParen => Err(ParseError::UnexpectedRParen),
        Token::Function { after, .. } => {
            if *after {
                replace_two(vec, at, true);
                Ok(())
            } else {
                Err(ParseError::UnsupportedImplicitMultiplication)
            }
        },
        Token::Operator { priority, name, .. } => {
            let priority = *priority;
            if at + 2 >= vec.len() {
                return Err(ParseError::UnexpectedOperator(name.clone()));
            }
            match &vec[at + 2] {
                Token::LParen => replace_paren(vec, at + 2),
                Token::RParen => Err(ParseError::UnexpectedRParen),
                Token::Operator { name, .. } => Err(ParseError::UnexpectedOperator(name.clone())),
                Token::Function { name, .. } => Err(ParseError::UnexpectedFunction(name.clone())),
                Token::Constant(_) | Token::ParsedTree(_) => {
                    if is_deferred(vec, at + 2, priority) {
                        find_and_replace(vec, at + 2)
                    } else {
                        replace_three(vec, at);
                        Ok(())
                    }
                },
            }
        },
        _ => Err(ParseError::UnsupportedImplicitMultiplication),
    }
}

/// Makes the reduction that begins with the operator at `at`.
fn reduce_operator(vec: &mut Vec<Token>, at: usize) -> (r: Result<(), ParseError>)
    requires
        at < old(vec).len(),
        old(vec)@[at as int]@ is Operator,
    ensures
        reduced(r, final(vec)@) == from_operator(token_views(old(vec)@), at as int),
        r is Err ==> final(vec)@ == old(vec)@,
    decreases old(vec).len(), 1int, 2 * (old(vec).len() - at),
{
    match &vec[at] {
        Token::Operator { priority, name, .. } => {
            let priority = *priority;
            let dash = "-".to_owned();
            if !(*name == dash) || at + 1 >= vec.len() {
                return Err(ParseError::UnexpectedOperator(name.clone()));
            }
            match &vec[at + 1] {
                Token::LParen => replace_paren(vec, at + 1),
                Token::RParen => Err(ParseError::UnexpectedRParen),
                Token::Operator { name, .. } => Err(ParseError::UnexpectedOperator(name.clone())),
                Token::Function { name, .. } => Err(ParseError::UnexpectedOperator(name.clone())),
                Token::Constant(_) | Token::ParsedTree(_) => {
                    if is_deferred(vec, at + 1, priority) {
                        find_and_replace(vec, at + 1)
                    } else {
                        replace_minus(vec, at);
                        Ok(())
                    }
                },
            }
        },
        _ => Err(missing_value()),
    }
}

/// Makes the reduction that begins with the function at `at`.
fn reduce_function(vec: &mut Vec<Token>, at: usize) -> (r: Result<(), ParseError>)
    requires
        at < old(vec).len(),
        old(vec)@[at as int]@ is Function,
    ensures
        reduced(r, final(vec)@) == from_function(token_views(old(vec)@), at as int),
        r is Err ==> final(vec)@ == old(vec)@,
    decreases old(vec).len(), 1int, 2 * (old(vec).len() - at),
{
    match &vec[at] {
        Token::Function { priority, after, name, .. } => {
            let priority = *priority;
            if *after || at + 1 >= vec.len() {
                return Err(ParseError::UnexpectedFunction(name.clone()));
            }
            match &vec[at + 1] {
                Token::LParen => replace_paren(vec, at + 1),
                Token::RParen => Err(ParseError::UnexpectedRParen),
                Token::Operator { name, .. } => Err(ParseError::UnexpectedOperator(name.clone())),
                Token::Function { name, .. } => Err(ParseError::UnexpectedFunction(name.clone())),
                Token::Constant(_) | Token::ParsedTree(_) => {
                    if is_deferred(vec, at + 1, priority) {
                        find_and_replace(vec, at + 1)
                    } else {
                        replace_two(vec, at, false);
                        Ok(())
                    }
                },
            }
        },
        _ => Err(missing_value()),
    }
}

/// Reduces what the parenthesis at `at` encloses to one tree, and puts the
/// tree in the place of the group. Where the group has no end, or what it
/// encloses has no tree, the sequence is left as it was.
pub fn replace_paren(vec: &mut Vec<Token>, at: usize) -> (r: Result<(), ParseError>)
    ensures
        reduced(r, final(vec)@) == group(token_views(old(vec)@), at as int),
        r is Err ==> final(vec)@ == old(vec)@,
    decreases old(vec).len(), 0int, 0int,
{
    if at >= vec.len() {
        return Err(ParseError::UnmatchedLParen);
    }
    let end = match find_closing(vec, at + 1) {
        Some(end) => end,
        None => {
            return Err(ParseError::UnmatchedLParen);
        },
    };
    proof {
        lemma_closing_in_range(token_views(vec@), at + 1, 1);
    }
    let inner = copy_of(vec, at + 1, end);
    assert(token_views(inner@) =~= token_views(vec@).subrange(at + 1, end as int));
    let tree = match reduce(inner) {
        Ok(tree) => tree,
        Err(e) => {
            return Err(e);
        },
    };
    let mut rest = vec.split_off(end);
    vec.truncate(at);
    vec.push(Token::ParsedTree(Box::new(tree)));
    let _ = rest.remove(0);
    vec.append(&mut rest);
    assert(token_views(vec@) =~= replace(token_views(old(vec)@), at as int, end - at + 1, tree@));
    Ok(())
}

/// The first flaw that an evaluation of the tree meets, each node before its
/// children and the left child before the right one: a node that holds
/// nothing, an operator that lacks a child, a function that lacks its left
/// child. A tree without a flaw has a value.
pub open spec fn flaw(tree: TreeView) -> Option<ParseErrorView>
    decreases tree,
{
    match tree.value {
        None => Some(no_value()),
        Some(ValueView::Constant(_)) => None,
        Some(ValueView::Function { .. }) => match tree.left {
            Some(l) => flaw(*l),
            None => Some(ParseErrorView::UnexpectedFunction("No left"@)),
        },
        Some(ValueView::Operator { .. }) => match (tree.left, tree.right) {
            (Some(l), Some(r)) => match flaw(*l) {
                Some(e) => Some(e),
                None => flaw(*r),
            },
            _ => Some(ParseErrorView::UnexpectedOperator("No left or right"@)),
        },
    }
}

/// Whether `v` is a value of the tree under the given arithmetic: what
/// `number` gives for a number, what `unary` gives for a function and a value
/// of its left child, what `binary` gives for an operator and values of its
/// left and right children.
pub open spec fn yields<V, N, U, B>(tree: TreeNode, number: N, unary: U, binary: B, v: V) -> bool where
    N: Fn(Number) -> V,
    U: Fn(UnaryOp, V) -> V,
    B: Fn(BinaryOp, V, V) -> V,

    decreases tree,
{
    match tree.value {
        None => false,
        Some(NodeValue::Constant(n)) => number.ensures((n,), v),
        Some(NodeValue::Function { fun, .. }) => match tree.left {
            Some(l) => exists|x: V|
                yields(*l, number, unary, binary, x) && #[trigger] unary.ensures((fun, x), v),
            None => false,
        },
        Some(NodeValue::Operator { fun, .. }) => match (tree.left, tree.right) {
            (Some(l), Some(r)) => exists|x: V, y: V|
                yields(*l, number, unary, binary, x) && yields(*r, number, unary, binary, y)
                    && #[trigger] binary.ensures((fun, x, y), v),
            _ => false,
        },
    }
}

/// What an evaluation returns: the first flaw of the tree, or else a value of
/// it under the given arithmetic.
pub open spec fn evaluated<V, N, U, B>(
    tree: TreeNode,
    number: N,
    unary: U,
    binary: B,
    r: Result<V, ParseError>,
) -> bool where N: Fn(Number) -> V, U: Fn(UnaryOp, V) -> V, B: Fn(BinaryOp, V, V) -> V {
    match flaw(tree@) {
        Some(e) => r matches Err(found) && found@ == e,
        None => r matches Ok(v) && yields(tree, number, unary, binary, v),
    }
}

impl TreeNode {
    /// The value of the tree: of a node after the values of its children.
    fn get_value<V, N, U, B>(self, number: &N, unary: &U, binary: &B) -> (r: Result<
        V,
        ParseError,
    >) where N: Fn(Number) -> V, U: Fn(UnaryOp, V) -> V, B: Fn(BinaryOp, V, V) -> V
        requires
            forall|n: Number| number.requires((n,)),
            forall|f: UnaryOp, x: V| unary.requires((f, x)),
            forall|f: BinaryOp, x: V, y: V| binary.requires((f, x, y)),
        ensures
            evaluated(self, *number, *unary, *binary, r),
        decreases self,
    {
        match self.value {
            Some(NodeValue::Operator { fun, .. }) => {
                match (self.left, self.right) {
                    (Some(l), Some(r)) => {
                        let x = match (*l).get_value(number, unary, binary) {
                            Ok(x) => x,
                            Err(e) => {
                                return Err(e);
                            },
                        };
                        let y = match (*r).get_value(number, unary, binary) {
                            Ok(y) => y,
                            Err(e) => {
                                return Err(e);
                            },
                        };
                        Ok(binary(fun, x, y))
                    },
                    _ => Err(ParseError::UnexpectedOperator("No left or right".to_owned())),
                }
            },
            Some(NodeValue::Function { fun, .. }) => {
                match self.left {
                    Some(l) => {
                        let x = match (*l).get_value(number, unary, binary) {
                            Ok(x) => x,
                            Err(e) => {
                                return Err(e);
                            },
                        };
                        Ok(unary(fun, x))
                    },
                    None => Err(ParseError::UnexpectedFunction("No left".to_owned())),
                }
            },
            Some(NodeValue::Constant(n)) => Ok(number(n)),
            None => Err(missing_value()),
        }
    }

    /// The value of the tree under the arithmetic that the caller gives: the
    /// value of each number, and what each function and operator makes of the
    /// values of its operands. Fails where the tree has a flaw.
    pub fn eval<V, N, U, B>(self, number: &N, unary: &U, binary: &B) -> (r: Result<
        V,
        ParseError,
    >) where N: Fn(Number) -> V, U: Fn(UnaryOp, V) -> V, B: Fn(BinaryOp, V, V) -> V
        requires
            forall|n: Number| number.requires((n,)),
            forall|f: UnaryOp, x: V| unary.requires((f, x)),
            forall|f: BinaryOp, x: V, y: V| binary.requires((f, x, y)),
        ensures
            evaluated(self, *number, *unary, *binary, r),
    {
        self.get_value(number, unary, binary)
    }
}

} // verus!
