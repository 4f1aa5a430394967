//! The reductions keep what is written: the tree of a sequence of tokens
//! holds, from left to right, what the tokens hold, in the same order.

use crate::acceptance::at_start;
use crate::parser::{
    binary_node, closing, deferred, from_function, from_operand, from_operator, group, is_operand,
    leaf, lemma_closing_in_range, lemma_step_shortens, minus, node_value, operand_tree, replace,
    resolve, step, unary_node, zero, TreeView,
};
use crate::precedence::{is_minus, is_prefix};
use crate::tokeniser::{TokenView, ValueView};
use vstd::prelude::*;

verus! {

/// What a child of a node holds, as it is written.
pub open spec fn written_child(child: Option<Box<TreeView>>) -> Seq<ValueView>
    decreases child,
{
    match child {
        Some(tree) => written(*tree),
        None => Seq::empty(),
    }
}

/// What a tree holds, as it is written: what a node holds stands between
/// what its children hold, and a function that takes the operand after it
/// stands before them.
pub open spec fn written(tree: TreeView) -> Seq<ValueView>
    decreases tree,
{
    match tree.value {
        None => written_child(tree.left) + written_child(tree.right),
        Some(v) => if v matches ValueView::Function { after, .. } && !after {
            seq![v] + written_child(tree.left) + written_child(tree.right)
        } else {
            written_child(tree.left) + seq![v] + written_child(tree.right)
        },
    }
}

/// What the token at `i` holds, as it is written: a parenthesis nothing, a
/// tree what it holds, and a minus at a start the subtraction from zero that
/// it stands for.
pub open spec fn spelled(s: Seq<TokenView>, i: int) -> Seq<ValueView> {
    match s[i] {
        TokenView::LParen | TokenView::RParen => Seq::empty(),
        TokenView::ParsedTree(tree) => written(tree),
        TokenView::Operator { .. } => if at_start(s, i) && is_minus(s[i]) {
            seq![ValueView::Constant(zero()), minus()]
        } else {
            seq![node_value(s[i])->0]
        },
        _ => seq![node_value(s[i])->0],
    }
}

/// What the tokens from `i` up to `j` hold, as it is written.
pub open spec fn spelled_range(s: Seq<TokenView>, i: int, j: int) -> Seq<ValueView>
    decreases j - i,
{
    if i >= j {
        Seq::empty()
    } else {
        spelled(s, i) + spelled_range(s, i + 1, j)
    }
}

/// What a sequence of tokens holds, as it is written.
pub open spec fn spelling(s: Seq<TokenView>) -> Seq<ValueView> {
    spelled_range(s, 0, s.len() as int)
}

/// What a range holds is what its two parts hold, one after the other.
proof fn lemma_range_parts(s: Seq<TokenView>, i: int, j: int, k: int)
    requires
        i <= j <= k,
    ensures
        spelled_range(s, i, k) == spelled_range(s, i, j) + spelled_range(s, j, k),
    decreases j - i,
{
    if i < j {
        lemma_range_parts(s, i + 1, j, k);
        assert(spelled(s, i) + (spelled_range(s, i + 1, j) + spelled_range(s, j, k)) == spelled(
            s,
            i,
        ) + spelled_range(s, i + 1, j) + spelled_range(s, j, k));
    } else {
        assert(Seq::<ValueView>::empty() + spelled_range(s, j, k) == spelled_range(s, j, k));
    }
}

/// Two ranges of the same tokens, both at a start or neither, hold the same.
proof fn lemma_same_range(c: Seq<TokenView>, x: int, a: Seq<TokenView>, y: int, n: int)
    requires
        0 <= x,
        0 <= y,
        0 <= n,
        x + n <= c.len(),
        y + n <= a.len(),
        c.subrange(x, x + n) == a.subrange(y, y + n),
        at_start(c, x) == at_start(a, y),
    ensures
        spelled_range(c, x, x + n) == spelled_range(a, y, y + n),
    decreases n,
{
    if n > 0 {
        assert(c[x] == c.subrange(x, x + n)[0]);
        assert(a[y] == a.subrange(y, y + n)[0]);
        assert(c.subrange(x + 1, x + n) == c.subrange(x, x + n).subrange(1, n));
        assert(a.subrange(y + 1, y + n) == a.subrange(y, y + n).subrange(1, n));
        lemma_same_range(c, x + 1, a, y + 1, n - 1);
    }
}

/// A tree in the place of tokens that hold what the tree holds, and that do
/// not end with an opening parenthesis, leaves what the sequence holds.
proof fn lemma_replace_keeps_spelling(s: Seq<TokenView>, at: int, width: int, tree: TreeView)
    requires
        0 <= at,
        1 <= width,
        at + width <= s.len(),
        spelled_range(s, at, at + width) == written(tree),
        !(s[at + width - 1] is LParen),
    ensures
        spelling(replace(s, at, width, tree)) == spelling(s),
{
    let next = replace(s, at, width, tree);
    let len = s.len() as int;
    assert(next.len() == len - width + 1);
    lemma_range_parts(s, 0, at, len);
    lemma_range_parts(s, at, at + width, len);
    lemma_range_parts(next, 0, at, next.len() as int);
    lemma_range_parts(next, at, at + 1, next.len() as int);
    assert(next.subrange(0, at) == s.subrange(0, at));
    lemma_same_range(next, 0, s, 0, at);
    assert(next.subrange(at + 1, next.len() as int) == s.subrange(at + width, len));
    assert(next[at] == TokenView::ParsedTree(tree));
    lemma_same_range(next, at + 1, s, at + width, len - at - width);
    assert(spelled_range(next, at, at + 1) == written(tree)) by {
        reveal_with_fuel(spelled_range, 2);
        assert(written(tree) + Seq::<ValueView>::empty() == written(tree));
    }
}

/// An operand holds what its tree holds.
proof fn lemma_operand_spelled(s: Seq<TokenView>, i: int)
    requires
        0 <= i < s.len(),
        is_operand(s[i]),
    ensures
        spelled(s, i) == written(operand_tree(s[i])),
{
    if let TokenView::Constant(n) = s[i] {
        let v = ValueView::Constant(n);
        assert(written(leaf(n)) == Seq::<ValueView>::empty() + seq![v] + Seq::<ValueView>::empty());
        assert(Seq::<ValueView>::empty() + seq![v] + Seq::<ValueView>::empty() == seq![v]);
    }
}

/// The reduction of a group keeps what is written.
proof fn lemma_group_keeps_spelling(s: Seq<TokenView>, at: int)
    requires
        0 <= at < s.len(),
        s[at] is LParen,
        group(s, at) is Ok,
    ensures
        spelling(group(s, at)->Ok_0) == spelling(s),
    decreases s.len(), 0int, 0int,
{
    let end = closing(s, at + 1, 1)->0;
    lemma_closing_in_range(s, at + 1, 1);
    let inner = s.subrange(at + 1, end);
    let tree = resolve(inner)->Ok_0;
    lemma_tree_keeps_spelling(inner);
    lemma_range_parts(s, at, at + 1, end + 1);
    lemma_range_parts(s, at + 1, end, end + 1);
    assert(inner.subrange(0, inner.len() as int) == inner);
    lemma_same_range(s, at + 1, inner, 0, inner.len() as int);
    reveal_with_fuel(spelled_range, 2);
    assert(spelled_range(s, at, at + 1) == Seq::<ValueView>::empty());
    assert(spelled_range(s, end, end + 1) == Seq::<ValueView>::empty());
    assert(Seq::<ValueView>::empty() + (written(tree) + Seq::<ValueView>::empty()) == written(tree));
    lemma_replace_keeps_spelling(s, at, end - at + 1, tree);
}

/// What two tokens in a row hold.
proof fn lemma_two_spelled(s: Seq<TokenView>, at: int)
    requires
        0 <= at,
        at + 2 <= s.len(),
    ensures
        spelled_range(s, at, at + 2) == spelled(s, at) + spelled(s, at + 1),
{
    reveal_with_fuel(spelled_range, 3);
    assert(spelled(s, at + 1) + Seq::<ValueView>::empty() == spelled(s, at + 1));
}

/// What three tokens in a row hold.
proof fn lemma_three_spelled(s: Seq<TokenView>, at: int)
    requires
        0 <= at,
        at + 3 <= s.len(),
    ensures
        spelled_range(s, at, at + 3) == spelled(s, at) + spelled(s, at + 1) + spelled(s, at + 2),
{
    reveal_with_fuel(spelled_range, 4);
    assert(spelled(s, at + 2) + Seq::<ValueView>::empty() == spelled(s, at + 2));
    assert(spelled(s, at) + (spelled(s, at + 1) + spelled(s, at + 2)) == spelled(s, at) + spelled(
        s,
        at + 1,
    ) + spelled(s, at + 2));
}

/// A reduction keeps what is written, where it is made from the start of the
/// sequence, or from an operand.
pub proof fn lemma_step_keeps_spelling(s: Seq<TokenView>, at: int)
    requires
        0 <= at < s.len(),
        at == 0 || is_operand(s[at]),
        step(s, at) is Ok,
    ensures
        spelling(step(s, at)->Ok_0) == spelling(s),
    decreases s.len(), 1int, s.len() - at,
{
    let none = Seq::<ValueView>::empty();
    match s[at] {
        TokenView::LParen => {
            lemma_group_keeps_spelling(s, at);
        },
        TokenView::RParen => {},
        TokenView::Constant(_) | TokenView::ParsedTree(_) => {
            assert(step(s, at) == from_operand(s, at));
            lemma_operand_spelled(s, at);
            if at + 1 >= s.len() {
                let tree = operand_tree(s[at]);
                assert(spelled_range(s, at, at + 1) == written(tree)) by {
                    reveal_with_fuel(spelled_range, 2);
                    assert(written(tree) + none == written(tree));
                }
                lemma_replace_keeps_spelling(s, at, 1, tree);
            } else if s[at + 1] is Function {
                let x = operand_tree(s[at]);
                let tree = unary_node(node_value(s[at + 1]), x);
                lemma_two_spelled(s, at);
                assert(written(tree) == written(x) + seq![node_value(s[at + 1])->0] + none);
                assert(written(x) + seq![node_value(s[at + 1])->0] + none == written(x) + seq![
                    node_value(s[at + 1])->0,
                ]);
                lemma_replace_keeps_spelling(s, at, 2, tree);
            } else if s[at + 1] is Operator && at + 2 < s.len() {
                if s[at + 2] is LParen {
                    lemma_group_keeps_spelling(s, at + 2);
                } else if is_operand(s[at + 2]) {
                    if deferred(s, at + 2, s[at + 1]->Operator_priority) {
                        lemma_step_keeps_spelling(s, at + 2);
                    } else {
                        let x = operand_tree(s[at]);
                        let y = operand_tree(s[at + 2]);
                        let tree = binary_node(node_value(s[at + 1]), x, y);
                        lemma_operand_spelled(s, at + 2);
                        lemma_three_spelled(s, at);
                        assert(written(tree) == written(x) + seq![node_value(s[at + 1])->0]
                            + written(y));
                        lemma_replace_keeps_spelling(s, at, 3, tree);
                    }
                }
            }
        },
        TokenView::Operator { priority, .. } => {
            assert(step(s, at) == from_operator(s, at));
            if at + 1 < s.len() {
                if s[at + 1] is LParen {
                    lemma_group_keeps_spelling(s, at + 1);
                } else if is_operand(s[at + 1]) {
                    if deferred(s, at + 1, priority) {
                        lemma_step_keeps_spelling(s, at + 1);
                    } else {
                        let x = operand_tree(s[at + 1]);
                        let tree = binary_node(Some(minus()), leaf(zero()), x);
                        let nought = ValueView::Constant(zero());
                        lemma_operand_spelled(s, at + 1);
                        lemma_two_spelled(s, at);
                        assert(written(leaf(zero())) == none + seq![nought] + none);
                        assert(none + seq![nought] + none == seq![nought]);
                        assert(written(tree) == seq![nought] + seq![minus()] + written(x));
                        assert(seq![nought] + seq![minus()] == seq![nought, minus()]);
                        lemma_replace_keeps_spelling(s, at, 2, tree);
                    }
                }
            }
        },
        TokenView::Function { priority, .. } => {
            assert(step(s, at) == from_function(s, at));
            if at + 1 < s.len() {
                if s[at + 1] is LParen {
                    lemma_group_keeps_spelling(s, at + 1);
                } else if is_operand(s[at + 1]) {
                    if deferred(s, at + 1, priority) {
                        lemma_step_keeps_spelling(s, at + 1);
                    } else {
                        let x = operand_tree(s[at + 1]);
                        let tree = unary_node(node_value(s[at]), x);
                        lemma_operand_spelled(s, at + 1);
                        lemma_two_spelled(s, at);
                        assert(is_prefix(s[at]));
                        assert(written(tree) == seq![node_value(s[at])->0] + written(x) + none);
                        assert(seq![node_value(s[at])->0] + written(x) + none == seq![
                            node_value(s[at])->0,
                        ] + written(x));
                        lemma_replace_keeps_spelling(s, at, 2, tree);
                    }
                }
            }
        },
    }
}

/// The tree of a sequence of tokens holds what the tokens hold, in the same
/// order: the reductions keep what is written.
pub proof fn lemma_tree_keeps_spelling(s: Seq<TokenView>)
    requires
        resolve(s) is Ok,
    ensures
        written(resolve(s)->Ok_0) == spelling(s),
    decreases s.len(), 2int, 0int,
{
    if s.len() == 1 && is_operand(s[0]) {
        lemma_operand_spelled(s, 0);
        reveal_with_fuel(spelled_range, 2);
        assert(spelled(s, 0) + Seq::<ValueView>::empty() == spelled(s, 0));
    } else {
        lemma_step_shortens(s, 0);
        lemma_tree_keeps_spelling(step(s, 0)->Ok_0);
        lemma_step_keeps_spelling(s, 0);
    }
}

} // verus!
