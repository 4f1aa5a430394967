//! The shape of the trees that the reducer builds: an operator has its two
//! operands, a function its one, and a number none.

use crate::parser::{
    binary_node, closing, flaw, from_function, from_operand, from_operator, group, is_operand, leaf,
    minus, node_value, operand_tree, replace, resolve, step, unary_node, zero, TreeView,
};
use crate::tokeniser::{TokenView, ValueView};
use vstd::prelude::*;

verus! {

/// Each node holds something; an operator has a left and a right child, a
/// function a left child only, a number no child; and the children are
/// well-formed in turn.
pub open spec fn well_formed(tree: TreeView) -> bool
    decreases tree,
{
    match tree.value {
        None => false,
        Some(ValueView::Constant(_)) => tree.left is None && tree.right is None,
        Some(ValueView::Function { .. }) => tree.right is None && match tree.left {
            Some(l) => well_formed(*l),
            None => false,
        },
        Some(ValueView::Operator { .. }) => match (tree.left, tree.right) {
            (Some(l), Some(r)) => well_formed(*l) && well_formed(*r),
            _ => false,
        },
    }
}

/// The trees among the tokens are well-formed.
pub open spec fn trees_well_formed(s: Seq<TokenView>) -> bool {
    forall|i: int| 0 <= i < s.len() ==> (#[trigger] s[i] matches TokenView::ParsedTree(tree)
        ==> well_formed(tree))
}

/// A well-formed tree has no flaw: its evaluation does not fail.
pub proof fn lemma_well_formed_has_no_flaw(tree: TreeView)
    requires
        well_formed(tree),
    ensures
        flaw(tree) is None,
    decreases tree,
{
    match tree.value {
        Some(ValueView::Function { .. }) => {
            lemma_well_formed_has_no_flaw(*tree.left->0);
        },
        Some(ValueView::Operator { .. }) => {
            lemma_well_formed_has_no_flaw(*tree.left->0);
            lemma_well_formed_has_no_flaw(*tree.right->0);
        },
        _ => {},
    }
}

/// A tree that takes the place of some tokens leaves the other tokens as
/// they were.
proof fn lemma_replace_keeps_shape(s: Seq<TokenView>, at: int, width: int, tree: TreeView)
    requires
        0 <= at,
        1 <= width,
        at + width <= s.len(),
        trees_well_formed(s),
        well_formed(tree),
    ensures
        trees_well_formed(replace(s, at, width, tree)),
{
    let next = replace(s, at, width, tree);
    assert forall|i: int| 0 <= i < next.len() implies (#[trigger] next[i] matches TokenView::ParsedTree(
        t,
    ) ==> well_formed(t)) by {
        if i < at {
            assert(next[i] == s[i]);
        } else if i > at {
            assert(next[i] == s[i + width - 1]);
        }
    }
}

/// A reduction among well-formed trees leaves well-formed trees.
pub proof fn lemma_step_keeps_shape(s: Seq<TokenView>, at: int)
    requires
        trees_well_formed(s),
    ensures
        step(s, at) matches Ok(next) ==> trees_well_formed(next),
    decreases s.len(), 1int, s.len() - at,
{
    reveal_with_fuel(well_formed, 3);
    if 0 <= at < s.len() {
        match s[at] {
            TokenView::LParen => {
                lemma_group_keeps_shape(s, at);
            },
            TokenView::RParen => {},
            TokenView::Constant(_) | TokenView::ParsedTree(_) => {
                if at + 1 >= s.len() {
                    lemma_replace_keeps_shape(s, at, 1, operand_tree(s[at]));
                } else if s[at + 1] is Function {
                    if from_operand(s, at) is Ok {
                        lemma_replace_keeps_shape(
                            s,
                            at,
                            2,
                            unary_node(node_value(s[at + 1]), operand_tree(s[at])),
                        );
                    }
                } else if s[at + 1] is Operator && at + 2 < s.len() {
                    if s[at + 2] is LParen {
                        lemma_group_keeps_shape(s, at + 2);
                    } else if is_operand(s[at + 2]) {
                        if from_operand(s, at) == step(s, at + 2) {
                            lemma_step_keeps_shape(s, at + 2);
                        } else {
                            lemma_replace_keeps_shape(
                                s,
                                at,
                                3,
                                binary_node(
                                    node_value(s[at + 1]),
                                    operand_tree(s[at]),
                                    operand_tree(s[at + 2]),
                                ),
                            );
                        }
                    }
                }
            },
            TokenView::Operator { .. } => {
                if at + 1 < s.len() {
                    if s[at + 1] is LParen {
                        lemma_group_keeps_shape(s, at + 1);
                    } else if is_operand(s[at + 1]) {
                        if from_operator(s, at) == step(s, at + 1) {
                            lemma_step_keeps_shape(s, at + 1);
                        } else if from_operator(s, at) is Ok {
                            lemma_replace_keeps_shape(
                                s,
                                at,
                                2,
                                binary_node(Some(minus()), leaf(zero()), operand_tree(s[at + 1])),
                            );
                        }
                    }
                }
            },
            TokenView::Function { .. } => {
                if at + 1 < s.len() {
                    if s[at + 1] is LParen {
                        lemma_group_keeps_shape(s, at + 1);
                    } else if is_operand(s[at + 1]) {
                        if from_function(s, at) == step(s, at + 1) {
                            lemma_step_keeps_shape(s, at + 1);
                        } else if from_function(s, at) is Ok {
                            lemma_replace_keeps_shape(
                                s,
                                at,
                                2,
                                unary_node(node_value(s[at]), operand_tree(s[at + 1])),
                            );
                        }
                    }
                }
            },
        }
    }
}

/// The reduction of a group among well-formed trees leaves well-formed
/// trees.
pub proof fn lemma_group_keeps_shape(s: Seq<TokenView>, at: int)
    requires
        trees_well_formed(s),
    ensures
        group(s, at) matches Ok(next) ==> trees_well_formed(next),
    decreases s.len(), 0int, 0int,
{
    if let Some(end) = closing(s, at + 1, 1) {
        if 0 <= at < end < s.len() {
            let inner = s.subrange(at + 1, end);
            assert forall|i: int| 0 <= i < inner.len() implies (#[trigger] inner[i] matches TokenView::ParsedTree(
                t,
            ) ==> well_formed(t)) by {
                assert(inner[i] == s[at + 1 + i]);
            }
            lemma_resolve_keeps_shape(inner);
            if let Ok(tree) = resolve(inner) {
                lemma_replace_keeps_shape(s, at, end - at + 1, tree);
            }
        }
    }
}

/// The tree of a sequence of tokens among which the trees are well-formed is
/// well-formed.
pub proof fn lemma_resolve_keeps_shape(s: Seq<TokenView>)
    requires
        trees_well_formed(s),
    ensures
        resolve(s) matches Ok(tree) ==> well_formed(tree),
    decreases s.len(), 2int, 0int,
{
    if s.len() == 1 && is_operand(s[0]) {
    } else if s.len() > 0 {
        lemma_step_keeps_shape(s, 0);
        if let Ok(next) = step(s, 0) {
            if next.len() < s.len() {
                lemma_resolve_keeps_shape(next);
            }
        }
    }
}

} // verus!
