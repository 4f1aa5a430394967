//! Each stage gives the same for the same input: the lexer and the reducer
//! by themselves, the evaluator under an arithmetic that does; and so do the
//! three one after another, from the text to the value.

use crate::parser::{evaluated, parsed, resolve, yields, ParseError, ParseErrorView, TreeNode};
use crate::tokeniser::{
    lex, lexed, token_views, BinaryOp, NodeValue, Number, Token, TokenError, TokenErrorView,
    UnaryOp,
};
use vstd::prelude::*;

verus! {

/// Each of the three functions gives one result at most for the same
/// arguments.
pub open spec fn single_valued<V, N, U, B>(number: N, unary: U, binary: B) -> bool where
    N: Fn(Number) -> V,
    U: Fn(UnaryOp, V) -> V,
    B: Fn(BinaryOp, V, V) -> V,
 {
    &&& forall|n: Number, v: V, w: V| #[trigger]
        number.ensures((n,), v) && #[trigger] number.ensures((n,), w) ==> v == w
    &&& forall|f: UnaryOp, x: V, v: V, w: V| #[trigger]
        unary.ensures((f, x), v) && #[trigger] unary.ensures((f, x), w) ==> v == w
    &&& forall|f: BinaryOp, x: V, y: V, v: V, w: V| #[trigger]
        binary.ensures((f, x, y), v) && #[trigger] binary.ensures((f, x, y), w) ==> v == w
}

/// Under an arithmetic that gives one result for the same arguments, a tree
/// has one value: evaluated again, it gives the same.
pub proof fn lemma_one_value<V, N, U, B>(
    tree: TreeNode,
    number: N,
    unary: U,
    binary: B,
    first: V,
    second: V,
) where N: Fn(Number) -> V, U: Fn(UnaryOp, V) -> V, B: Fn(BinaryOp, V, V) -> V
    requires
        single_valued(number, unary, binary),
        yields(tree, number, unary, binary, first),
        yields(tree, number, unary, binary, second),
    ensures
        first == second,
    decreases tree,
{
    match tree.value {
        Some(NodeValue::Function { fun, .. }) => {
            let l = tree.left->0;
            let x1 = choose|x: V|
                yields(*l, number, unary, binary, x) && #[trigger] unary.ensures((fun, x), first);
            let x2 = choose|x: V|
                yields(*l, number, unary, binary, x) && #[trigger] unary.ensures((fun, x), second);
            lemma_one_value(*l, number, unary, binary, x1, x2);
        },
        Some(NodeValue::Operator { fun, .. }) => {
            let l = tree.left->0;
            let r = tree.right->0;
            let (x1, y1) = choose|x: V, y: V|
                yields(*l, number, unary, binary, x) && yields(*r, number, unary, binary, y)
                    && #[trigger] binary.ensures((fun, x, y), first);
            let (x2, y2) = choose|x: V, y: V|
                yields(*l, number, unary, binary, x) && yields(*r, number, unary, binary, y)
                    && #[trigger] binary.ensures((fun, x, y), second);
            lemma_one_value(*l, number, unary, binary, x1, x2);
            lemma_one_value(*r, number, unary, binary, y1, y2);
        },
        _ => {},
    }
}

/// Lexed twice, a text gives the same tokens, or the same error.
pub proof fn lemma_lexed_twice(
    text: String,
    first: Result<Vec<Token>, TokenError>,
    second: Result<Vec<Token>, TokenError>,
)
    requires
        lexed(first) == lex(text@),
        lexed(second) == lex(text@),
    ensures
        lexed(first) == lexed(second),
{
}

/// Reduced twice, a sequence of tokens gives the same tree, or the same
/// error.
pub proof fn lemma_parsed_twice(
    tokens: Vec<Token>,
    first: Result<TreeNode, ParseError>,
    second: Result<TreeNode, ParseError>,
)
    requires
        parsed(first) == resolve(token_views(tokens@)),
        parsed(second) == resolve(token_views(tokens@)),
    ensures
        parsed(first) == parsed(second),
{
}

/// Evaluated twice under an arithmetic that gives one result for the same
/// arguments, a tree gives the same value, or the same error.
pub proof fn lemma_evaluated_twice<V, N, U, B>(
    tree: TreeNode,
    number: N,
    unary: U,
    binary: B,
    first: Result<V, ParseError>,
    second: Result<V, ParseError>,
) where N: Fn(Number) -> V, U: Fn(UnaryOp, V) -> V, B: Fn(BinaryOp, V, V) -> V
    requires
        single_valued(number, unary, binary),
        evaluated(tree, number, unary, binary, first),
        evaluated(tree, number, unary, binary, second),
    ensures
        match (first, second) {
            (Ok(v), Ok(w)) => v == w,
            (Err(e), Err(f)) => e@ == f@,
            _ => false,
        },
{
    if let (Ok(v), Ok(w)) = (first, second) {
        lemma_one_value(tree, number, unary, binary, v, w);
    }
}

/// The value that the arithmetic gives to a number depends on what the
/// number reads as, and on nothing else.
pub open spec fn reads_alike<V, N>(number: N) -> bool where N: Fn(Number) -> V {
    forall|n: Number, m: Number, v: V| #[trigger]
        number.ensures((n,), v) && n@ == m@ ==> #[trigger] number.ensures((m,), v)
}

/// Two trees that read alike have the same values under an arithmetic that
/// goes by what a number reads as.
pub proof fn lemma_value_by_view<V, N, U, B>(
    tree: TreeNode,
    other: TreeNode,
    number: N,
    unary: U,
    binary: B,
    v: V,
) where N: Fn(Number) -> V, U: Fn(UnaryOp, V) -> V, B: Fn(BinaryOp, V, V) -> V
    requires
        tree@ == other@,
        reads_alike(number),
        yields(tree, number, unary, binary, v),
    ensures
        yields(other, number, unary, binary, v),
    decreases tree,
{
    match tree.value {
        Some(NodeValue::Constant(n)) => {
            let m = other.value->0->Constant_0;
            assert(n@ == m@);
            assert(number.ensures((m,), v));
        },
        Some(NodeValue::Function { fun, .. }) => {
            let l = tree.left->0;
            let k = other.left->0;
            let x = choose|x: V|
                yields(*l, number, unary, binary, x) && #[trigger] unary.ensures((fun, x), v);
            lemma_value_by_view(*l, *k, number, unary, binary, x);
        },
        Some(NodeValue::Operator { fun, .. }) => {
            let l = tree.left->0;
            let r = tree.right->0;
            let (x, y) = choose|x: V, y: V|
                yields(*l, number, unary, binary, x) && yields(*r, number, unary, binary, y)
                    && #[trigger] binary.ensures((fun, x, y), v);
            lemma_value_by_view(*l, *other.left->0, number, unary, binary, x);
            lemma_value_by_view(*r, *other.right->0, number, unary, binary, y);
        },
        None => {},
    }
}

/// How an evaluation of a text ends: with a value, or with the error of the
/// stage that failed.
pub enum Outcome<V> {
    Value(V),
    NoTokens(TokenErrorView),
    NoTree(ParseErrorView),
    NoValue(ParseErrorView),
}

/// The outcome of the three stages one after another: the first error, or
/// the value.
pub open spec fn outcome<V>(
    tokens: Result<Vec<Token>, TokenError>,
    tree: Result<TreeNode, ParseError>,
    value: Result<V, ParseError>,
) -> Outcome<V> {
    match tokens {
        Err(e) => Outcome::NoTokens(e@),
        Ok(_) => match tree {
            Err(e) => Outcome::NoTree(e@),
            Ok(_) => match value {
                Err(e) => Outcome::NoValue(e@),
                Ok(v) => Outcome::Value(v),
            },
        },
    }
}

/// What `tokenise`, `parse` and `eval` return when a text is evaluated: the
/// tokens of the text, the tree of the tokens if there are tokens, and the
/// value of the tree if there is a tree.
pub open spec fn evaluation<V, N, U, B>(
    text: Seq<char>,
    number: N,
    unary: U,
    binary: B,
    tokens: Result<Vec<Token>, TokenError>,
    tree: Result<TreeNode, ParseError>,
    value: Result<V, ParseError>,
) -> bool where N: Fn(Number) -> V, U: Fn(UnaryOp, V) -> V, B: Fn(BinaryOp, V, V) -> V {
    &&& lexed(tokens) == lex(text)
    &&& match tokens {
        Ok(found) => parsed(tree) == resolve(token_views(found@)),
        Err(_) => true,
    }
    &&& match tree {
        Ok(built) => evaluated(built, number, unary, binary, value),
        Err(_) => true,
    }
}

/// Evaluated twice, from the text to the value, a text gives the same: the
/// same value, or the same error of the same stage. The arithmetic has to
/// give one result for the same arguments, and to go by what a number reads
/// as; nothing else is kept from one evaluation to the next.
pub proof fn lemma_text_evaluated_twice<V, N, U, B>(
    text: Seq<char>,
    number: N,
    unary: U,
    binary: B,
    tokens: Result<Vec<Token>, TokenError>,
    tree: Result<TreeNode, ParseError>,
    value: Result<V, ParseError>,
    tokens_again: Result<Vec<Token>, TokenError>,
    tree_again: Result<TreeNode, ParseError>,
    value_again: Result<V, ParseError>,
) where N: Fn(Number) -> V, U: Fn(UnaryOp, V) -> V, B: Fn(BinaryOp, V, V) -> V
    requires
        single_valued(number, unary, binary),
        reads_alike(number),
        evaluation(text, number, unary, binary, tokens, tree, value),
        evaluation(text, number, unary, binary, tokens_again, tree_again, value_again),
    ensures
        outcome(tokens, tree, value) == outcome(tokens_again, tree_again, value_again),
{
    if let (Ok(found), Ok(found_again)) = (tokens, tokens_again) {
        if let (Ok(built), Ok(built_again)) = (tree, tree_again) {
            if let (Ok(v), Ok(w)) = (value, value_again) {
                lemma_value_by_view(built, built_again, number, unary, binary, v);
                lemma_one_value(built_again, number, unary, binary, v, w);
            }
        }
    }
}

} // verus!
