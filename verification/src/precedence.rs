//! One operation, and two in a row: what the reducer makes of the shortest
//! sequences, which of two operations it applies first, and which tokens may
//! not stand in a row.

use crate::parser::{
    binary_node, from_operand, from_operator, is_operand, leaf, lemma_step_shortens, minus,
    no_value, node_value, operand_tree, replace, resolve, step, unary_node, zero, ParseErrorView,
    TreeView,
};
use crate::tokeniser::TokenView;
use vstd::prelude::*;

verus! {

/// A function that stands before its operand.
pub open spec fn is_prefix(t: TokenView) -> bool {
    t matches TokenView::Function { after, .. } && !after
}

/// A function that stands after its operand.
pub open spec fn is_postfix(t: TokenView) -> bool {
    t matches TokenView::Function { after, .. } && after
}

/// An operator by the name of the minus sign.
pub open spec fn is_minus(t: TokenView) -> bool {
    t matches TokenView::Operator { name, .. } && name == "-"@
}

/// A sequence of two tokens or more has the tree of what one reduction at its
/// start leaves.
pub proof fn lemma_resolve_after_step(s: Seq<TokenView>, next: Seq<TokenView>)
    requires
        s.len() >= 2,
        step(s, 0) == Ok::<Seq<TokenView>, ParseErrorView>(next),
    ensures
        resolve(s) == resolve(next),
{
    lemma_step_shortens(s, 0);
}

/// Two operands with an operator between them become the tree of the
/// operator.
pub proof fn lemma_resolve_binary(x: TokenView, operator: TokenView, y: TokenView)
    requires
        is_operand(x),
        operator is Operator,
        is_operand(y),
    ensures
        resolve(seq![x, operator, y]) == Ok::<TreeView, ParseErrorView>(
            binary_node(node_value(operator), operand_tree(x), operand_tree(y)),
        ),
{
    let s = seq![x, operator, y];
    let tree = binary_node(node_value(operator), operand_tree(x), operand_tree(y));
    let next = seq![TokenView::ParsedTree(tree)];
    assert(replace(s, 0, 3, tree) == next);
    assert(step(s, 0) == Ok::<Seq<TokenView>, ParseErrorView>(next));
    lemma_resolve_after_step(s, next);
}

/// A function and the operand beside it become the tree of the function.
pub proof fn lemma_resolve_unary(function: TokenView, x: TokenView)
    requires
        function is Function,
        is_operand(x),
    ensures
        resolve(
            if function->Function_after {
                seq![x, function]
            } else {
                seq![function, x]
            },
        ) == Ok::<TreeView, ParseErrorView>(unary_node(node_value(function), operand_tree(x))),
{
    let s = if function->Function_after {
        seq![x, function]
    } else {
        seq![function, x]
    };
    let tree = unary_node(node_value(function), operand_tree(x));
    let next = seq![TokenView::ParsedTree(tree)];
    assert(replace(s, 0, 2, tree) == next);
    assert(step(s, 0) == Ok::<Seq<TokenView>, ParseErrorView>(next));
    lemma_resolve_after_step(s, next);
}

/// A minus and the operand after it become the subtraction of the operand
/// from zero.
pub proof fn lemma_resolve_negated(sign: TokenView, x: TokenView)
    requires
        is_minus(sign),
        is_operand(x),
    ensures
        resolve(seq![sign, x]) == Ok::<TreeView, ParseErrorView>(
            binary_node(Some(minus()), leaf(zero()), operand_tree(x)),
        ),
{
    let s = seq![sign, x];
    let tree = binary_node(Some(minus()), leaf(zero()), operand_tree(x));
    let next = seq![TokenView::ParsedTree(tree)];
    assert(replace(s, 0, 2, tree) == next);
    assert(step(s, 0) == Ok::<Seq<TokenView>, ParseErrorView>(next));
    lemma_resolve_after_step(s, next);
}

/// Of two operators in a row, the second is applied first where its priority
/// is strictly higher, and takes the operand between them; else the first is
/// applied first, so that operators of one priority group from the left.
pub proof fn lemma_higher_priority_first(
    x: TokenView,
    first: TokenView,
    y: TokenView,
    second: TokenView,
    z: TokenView,
)
    requires
        is_operand(x),
        is_operand(y),
        is_operand(z),
        first is Operator,
        second is Operator,
    ensures
        resolve(seq![x, first, y, second, z]) == Ok::<TreeView, ParseErrorView>(
            if second->Operator_priority > first->Operator_priority {
                binary_node(
                    node_value(first),
                    operand_tree(x),
                    binary_node(node_value(second), operand_tree(y), operand_tree(z)),
                )
            } else {
                binary_node(
                    node_value(second),
                    binary_node(node_value(first), operand_tree(x), operand_tree(y)),
                    operand_tree(z),
                )
            },
        ),
{
    let s = seq![x, first, y, second, z];
    if second->Operator_priority > first->Operator_priority {
        let inner = binary_node(node_value(second), operand_tree(y), operand_tree(z));
        let next = seq![x, first, TokenView::ParsedTree(inner)];
        assert(replace(s, 2, 3, inner) == next);
        assert(step(s, 2) == Ok::<Seq<TokenView>, ParseErrorView>(next));
        assert(step(s, 0) == step(s, 2));
        lemma_resolve_after_step(s, next);
        lemma_resolve_binary(x, first, TokenView::ParsedTree(inner));
    } else {
        let inner = binary_node(node_value(first), operand_tree(x), operand_tree(y));
        let next = seq![TokenView::ParsedTree(inner), second, z];
        assert(replace(s, 0, 3, inner) == next);
        assert(step(s, 0) == Ok::<Seq<TokenView>, ParseErrorView>(next));
        lemma_resolve_after_step(s, next);
        lemma_resolve_binary(TokenView::ParsedTree(inner), second, z);
    }
}

/// A function that stands after the second operand of an operator takes that
/// operand where its priority is strictly higher than the operator's, and
/// else the whole operation.
pub proof fn lemma_postfix_after_operator(
    x: TokenView,
    operator: TokenView,
    y: TokenView,
    function: TokenView,
)
    requires
        is_operand(x),
        is_operand(y),
        operator is Operator,
        is_postfix(function),
    ensures
        resolve(seq![x, operator, y, function]) == Ok::<TreeView, ParseErrorView>(
            if function->Function_priority > operator->Operator_priority {
                binary_node(
                    node_value(operator),
                    operand_tree(x),
                    unary_node(node_value(function), operand_tree(y)),
                )
            } else {
                unary_node(
                    node_value(function),
                    binary_node(node_value(operator), operand_tree(x), operand_tree(y)),
                )
            },
        ),
{
    let s = seq![x, operator, y, function];
    if function->Function_priority > operator->Operator_priority {
        let inner = unary_node(node_value(function), operand_tree(y));
        let next = seq![x, operator, TokenView::ParsedTree(inner)];
        assert(replace(s, 2, 2, inner) == next);
        assert(step(s, 2) == Ok::<Seq<TokenView>, ParseErrorView>(next));
        assert(step(s, 0) == step(s, 2));
        lemma_resolve_after_step(s, next);
        lemma_resolve_binary(x, operator, TokenView::ParsedTree(inner));
    } else {
        let inner = binary_node(node_value(operator), operand_tree(x), operand_tree(y));
        let next = seq![TokenView::ParsedTree(inner), function];
        assert(replace(s, 0, 3, inner) == next);
        assert(step(s, 0) == Ok::<Seq<TokenView>, ParseErrorView>(next));
        lemma_resolve_after_step(s, next);
        let tree = unary_node(node_value(function), inner);
        let last = seq![TokenView::ParsedTree(tree)];
        assert(replace(next, 0, 2, tree) == last);
        assert(step(next, 0) == Ok::<Seq<TokenView>, ParseErrorView>(last));
        lemma_resolve_after_step(next, last);
    }
}

/// Two operators in a row are refused: the second stands where an operand is
/// needed.
pub proof fn lemma_operator_after_operator(
    x: TokenView,
    first: TokenView,
    second: TokenView,
    rest: Seq<TokenView>,
)
    requires
        is_operand(x),
        first is Operator,
        second is Operator,
    ensures
        resolve(seq![x, first, second] + rest) == Err::<TreeView, ParseErrorView>(
            ParseErrorView::UnexpectedOperator(second->Operator_name),
        ),
{
    let s = seq![x, first, second] + rest;
    let refused = ParseErrorView::UnexpectedOperator(second->Operator_name);
    assert(s[0] == x && s[1] == first && s[2] == second);
    assert(from_operand(s, 0) == Err::<Seq<TokenView>, ParseErrorView>(refused));
    assert(step(s, 0) == Err::<Seq<TokenView>, ParseErrorView>(refused));
}

/// Two operands side by side are refused, and so is an operand before a
/// parenthesis or before a function that takes the operand after it: no
/// product is read where no operator stands.
pub proof fn lemma_operands_side_by_side(x: TokenView, y: TokenView, rest: Seq<TokenView>)
    requires
        is_operand(x),
        is_operand(y) || y is LParen || is_prefix(y),
    ensures
        resolve(seq![x, y] + rest) == Err::<TreeView, ParseErrorView>(
            ParseErrorView::UnsupportedImplicitMultiplication,
        ),
{
    let s = seq![x, y] + rest;
    let refused = ParseErrorView::UnsupportedImplicitMultiplication;
    assert(s[0] == x && s[1] == y);
    assert(from_operand(s, 0) == Err::<Seq<TokenView>, ParseErrorView>(refused));
    assert(step(s, 0) == Err::<Seq<TokenView>, ParseErrorView>(refused));
}

/// An operator at the start is refused, unless it is a minus before an
/// operand or a parenthesis.
pub proof fn lemma_operator_first(operator: TokenView, rest: Seq<TokenView>)
    requires
        operator is Operator,
        !is_minus(operator) || rest.len() == 0,
    ensures
        resolve(seq![operator] + rest) == Err::<TreeView, ParseErrorView>(
            ParseErrorView::UnexpectedOperator(operator->Operator_name),
        ),
{
    let s = seq![operator] + rest;
    let refused = ParseErrorView::UnexpectedOperator(operator->Operator_name);
    assert(s[0] == operator);
    assert(from_operator(s, 0) == Err::<Seq<TokenView>, ParseErrorView>(refused));
    assert(step(s, 0) == Err::<Seq<TokenView>, ParseErrorView>(refused));
}

/// An operator at the end, after one operand, is refused: it lacks its
/// second operand.
pub proof fn lemma_operator_last(x: TokenView, operator: TokenView)
    requires
        is_operand(x),
        operator is Operator,
    ensures
        resolve(seq![x, operator]) == Err::<TreeView, ParseErrorView>(
            ParseErrorView::UnexpectedOperator(operator->Operator_name),
        ),
{
    let s = seq![x, operator];
    let refused = ParseErrorView::UnexpectedOperator(operator->Operator_name);
    assert(from_operand(s, 0) == Err::<Seq<TokenView>, ParseErrorView>(refused));
    assert(step(s, 0) == Err::<Seq<TokenView>, ParseErrorView>(refused));
}

/// Nothing has no tree.
pub proof fn lemma_nothing_has_no_tree()
    ensures
        resolve(Seq::<TokenView>::empty()) == Err::<TreeView, ParseErrorView>(no_value()),
{
}

} // verus!
