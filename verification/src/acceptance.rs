//! Which sequences of tokens have a tree: the expressions, in which the
//! parentheses match and each token may stand where it stands.

use crate::grouping::{
    balanced, is_parenthesis, lemma_no_parentheses_balanced, lemma_open_after_concat,
    lemma_parentheses_change_nothing, lemma_replace_keeps_balance, open_after,
    without_parentheses, wrap,
};
use crate::parser::{
    binary_node, closing, deferred, from_function, from_operand, from_operator, group, is_operand,
    leaf, lemma_closing_in_range, lemma_step_shortens, minus, node_value, operand_tree, replace,
    resolve, step, unary_node, zero, TreeView,
};
use crate::phrases::{follows, is_phrase, lemma_phrase_has_usual_tree, lemma_replace_maps};
use crate::precedence::{is_minus, is_postfix, is_prefix};
use crate::substitution::{lemma_group_is_its_tree, with_group, with_tree};
use crate::tokeniser::TokenView;
use vstd::prelude::*;

verus! {

/// The token at `i` begins the sequence or a group.
pub open spec fn at_start(s: Seq<TokenView>, i: int) -> bool {
    i == 0 || s[i - 1] is LParen
}

/// The token before `i` ends something that has a value: it is an operand,
/// a function that takes what stands before it, or a closing parenthesis.
pub open spec fn after_value(s: Seq<TokenView>, i: int) -> bool {
    i >= 1 && (is_operand(s[i - 1]) || is_postfix(s[i - 1]) || s[i - 1] is RParen)
}

/// The token after `i` begins something that has a value: it is an operand
/// or an opening parenthesis.
pub open spec fn before_value(s: Seq<TokenView>, i: int) -> bool {
    i + 1 < s.len() && (is_operand(s[i + 1]) || s[i + 1] is LParen)
}

/// A value may begin at `i`: at a start, after an operator, or after a
/// function that takes what stands after it.
pub open spec fn value_place(s: Seq<TokenView>, i: int) -> bool {
    at_start(s, i) || (i >= 1 && (s[i - 1] is Operator || is_prefix(s[i - 1])))
}

/// Whether the token at `i` may stand where it stands. An operand and an
/// opening parenthesis stand where a value may begin. A closing parenthesis
/// and a function that takes what stands before it stand after a value. An
/// operator stands between two values; a minus may also stand at a start,
/// before a value. A function that takes what stands after it stands at a
/// start, before a value.
pub open spec fn fits(s: Seq<TokenView>, i: int) -> bool {
    match s[i] {
        TokenView::Constant(_) | TokenView::ParsedTree(_) | TokenView::LParen => value_place(s, i),
        TokenView::RParen => after_value(s, i),
        TokenView::Operator { .. } => (after_value(s, i) || (at_start(s, i) && is_minus(s[i])))
            && before_value(s, i),
        TokenView::Function { after, .. } => if after {
            after_value(s, i)
        } else {
            at_start(s, i) && before_value(s, i)
        },
    }
}

/// An expression: the parentheses match, each token may stand where it
/// stands, and the last token ends a value.
pub open spec fn is_expression(s: Seq<TokenView>) -> bool {
    &&& s.len() >= 1
    &&& balanced(s)
    &&& forall|i: int| 0 <= i < s.len() ==> #[trigger] fits(s, i)
    &&& after_value(s, s.len() as int)
}

/// The place of the first closing parenthesis from `i` on, or the length of
/// the sequence where there is none.
pub open spec fn first_closing(s: Seq<TokenView>, i: int) -> int
    decreases s.len() - i,
{
    if i >= s.len() {
        s.len() as int
    } else if s[i] is RParen {
        i
    } else {
        first_closing(s, i + 1)
    }
}

/// The place of the last opening parenthesis before `i`, or -1 where there
/// is none.
pub open spec fn last_opening(s: Seq<TokenView>, i: int) -> int
    decreases i,
{
    if i <= 0 {
        -1
    } else if s[i - 1] is LParen {
        i - 1
    } else {
        last_opening(s, i - 1)
    }
}

/// Where the first closing parenthesis from `i` on stands.
proof fn lemma_first_closing(s: Seq<TokenView>, i: int)
    requires
        0 <= i <= s.len(),
    ensures
        i <= first_closing(s, i) <= s.len(),
        first_closing(s, i) < s.len() ==> s[first_closing(s, i)] is RParen,
        forall|k: int| i <= k < first_closing(s, i) ==> !(#[trigger] s[k] is RParen),
    decreases s.len() - i,
{
    if i < s.len() && !(s[i] is RParen) {
        lemma_first_closing(s, i + 1);
    }
}

/// Where the last opening parenthesis before `i` stands.
proof fn lemma_last_opening(s: Seq<TokenView>, i: int)
    requires
        0 <= i <= s.len(),
    ensures
        -1 <= last_opening(s, i) < i,
        last_opening(s, i) >= 0 ==> s[last_opening(s, i)] is LParen,
        forall|k: int| last_opening(s, i) < k < i ==> !(#[trigger] s[k] is LParen),
    decreases i,
{
    if i > 0 && !(s[i - 1] is LParen) {
        lemma_last_opening(s, i - 1);
    }
}

/// Where nothing closes, as many parentheses more are open after a sequence
/// as it opens; so none, if as many are open after it as before it.
proof fn lemma_only_openings(s: Seq<TokenView>, open: nat)
    requires
        forall|k: int| 0 <= k < s.len() ==> !(#[trigger] s[k] is RParen),
    ensures
        open_after(s, open) is Some,
        open_after(s, open)->0 >= open,
        open_after(s, open)->0 == open ==> forall|k: int|
            0 <= k < s.len() ==> !(#[trigger] s[k] is LParen),
    decreases s.len(),
{
    if s.len() > 0 {
        let rest = s.drop_first();
        assert(!(s[0] is RParen));
        assert forall|k: int| 0 <= k < rest.len() implies !(#[trigger] rest[k] is RParen) by {
            assert(rest[k] == s[k + 1]);
        }
        if s[0] is LParen {
            lemma_only_openings(rest, open + 1);
        } else {
            lemma_only_openings(rest, open);
            if open_after(s, open)->0 == open {
                assert forall|k: int| 0 <= k < s.len() implies !(#[trigger] s[k] is LParen) by {
                    if k > 0 {
                        assert(rest[k - 1] == s[k]);
                    }
                }
            }
        }
    }
}

/// In a balanced sequence that holds a parenthesis, the first closing
/// parenthesis stands after an opening one, and there is no parenthesis
/// between the two.
pub proof fn lemma_innermost_group(s: Seq<TokenView>)
    requires
        balanced(s),
        !without_parentheses(s),
    ensures
        0 <= last_opening(s, first_closing(s, 0)) < first_closing(s, 0) < s.len(),
        s[first_closing(s, 0)] is RParen,
        s[last_opening(s, first_closing(s, 0))] is LParen,
        without_parentheses(
            s.subrange(last_opening(s, first_closing(s, 0)) + 1, first_closing(s, 0)),
        ),
{
    let r = first_closing(s, 0);
    lemma_first_closing(s, 0);
    lemma_last_opening(s, r);
    let l = last_opening(s, r);
    if r == s.len() {
        lemma_only_openings(s, 0);
        assert(without_parentheses(s));
    } else {
        let head = s.subrange(0, r);
        let tail = s.subrange(r, s.len() as int);
        assert(s == head + tail);
        lemma_open_after_concat(head, tail, 0);
        if l < 0 {
            assert forall|k: int| 0 <= k < head.len() implies !is_parenthesis(
                #[trigger] head[k],
            ) by {
                assert(head[k] == s[k]);
            }
            lemma_no_parentheses_balanced(head);
            assert(tail[0] is RParen);
        }
        let inner = s.subrange(l + 1, r);
        assert forall|k: int| 0 <= k < inner.len() implies !is_parenthesis(
            #[trigger] inner[k],
        ) by {
            assert(inner[k] == s[l + 1 + k]);
        }
    }
}

/// The sequence without parentheses between an opening parenthesis of an
/// expression and the first closing one is a phrase.
pub proof fn lemma_innermost_is_phrase(s: Seq<TokenView>, l: int, r: int)
    requires
        is_expression(s),
        0 <= l < r < s.len(),
        s[l] is LParen,
        s[r] is RParen,
        without_parentheses(s.subrange(l + 1, r)),
    ensures
        is_phrase(s.subrange(l + 1, r)),
{
    let inner = s.subrange(l + 1, r);
    assert forall|k: int| l < k < r implies !is_parenthesis(#[trigger] s[k]) by {
        assert(inner[k - l - 1] == s[k]);
    }
    assert(fits(s, r));
    assert(fits(s, l + 1));
    if l + 2 < s.len() {
        assert(fits(s, l + 2));
    }
    assert forall|i: int| 1 <= i < inner.len() implies #[trigger] follows(inner, i) by {
        let k = l + 1 + i;
        assert(fits(s, k));
        assert(fits(s, k - 1));
        assert(inner[i] == s[k]);
        assert(inner[i - 1] == s[k - 1]);
        assert(!(s[k] is LParen) && !(s[k] is RParen));
        assert(!(s[k - 1] is LParen) && !(s[k - 1] is RParen));
        if k + 1 < r {
            assert(inner[i + 1] == s[k + 1]);
            assert(!(s[k + 1] is LParen) && !(s[k + 1] is RParen));
        }
        if i >= 2 {
            assert(!(s[k - 2] is LParen));
        }
    }
    assert(inner[0] == s[l + 1]);
    if inner.len() >= 2 {
        assert(inner[1] == s[l + 2]);
    }
}

/// An expression with the tree of a group in the place of the group is an
/// expression.
pub proof fn lemma_expression_with_tree(s: Seq<TokenView>, l: int, r: int, tree: TreeView)
    requires
        is_expression(s),
        0 <= l < r < s.len(),
        s[l] is LParen,
        s[r] is RParen,
        balanced(s.subrange(l, r + 1)),
    ensures
        is_expression(replace(s, l, r - l + 1, tree)),
{
    let next = replace(s, l, r - l + 1, tree);
    let width = r - l + 1;
    lemma_replace_keeps_balance(s, l, width, tree, 0);
    assert(next.len() == s.len() - width + 1);
    assert(fits(s, l));
    assert forall|i: int| 0 <= i < next.len() implies #[trigger] fits(next, i) by {
        if i < l {
            assert(fits(s, i));
            assert(next[i] == s[i]);
            if i >= 1 {
                assert(next[i - 1] == s[i - 1]);
            }
            if i + 1 < l {
                assert(next[i + 1] == s[i + 1]);
            }
        } else if i == l {
            if i >= 1 {
                assert(next[i - 1] == s[i - 1]);
            }
        } else {
            let k = i + width - 1;
            assert(fits(s, k));
            assert(next[i] == s[k]);
            if i - 1 > l {
                assert(next[i - 1] == s[k - 1]);
            }
            if i + 1 < next.len() {
                assert(next[i + 1] == s[k + 1]);
            }
        }
    }
    if r + 1 < s.len() {
        assert(next[next.len() - 1] == s[s.len() - 1]);
    }
}

/// An expression without parentheses is a phrase.
pub proof fn lemma_without_parentheses_is_phrase(s: Seq<TokenView>)
    requires
        is_expression(s),
        without_parentheses(s),
    ensures
        is_phrase(s),
{
    assert(fits(s, 0));
    if s.len() >= 2 {
        assert(fits(s, 1));
    }
    assert forall|i: int| 1 <= i < s.len() implies #[trigger] follows(s, i) by {
        assert(fits(s, i));
        assert(fits(s, i - 1));
        assert(!(s[i] is LParen) && !(s[i] is RParen));
        assert(!(s[i - 1] is LParen) && !(s[i - 1] is RParen));
        if i + 1 < s.len() {
            assert(!(s[i + 1] is LParen) && !(s[i + 1] is RParen));
        }
        if i >= 2 {
            assert(!(s[i - 2] is LParen));
        }
    }
}

/// An expression has a tree.
pub proof fn lemma_expression_has_tree(s: Seq<TokenView>)
    requires
        is_expression(s),
    ensures
        resolve(s) is Ok,
    decreases s.len(),
{
    if !without_parentheses(s) {
        lemma_innermost_group(s);
        let r = first_closing(s, 0);
        let l = last_opening(s, r);
        let inner = s.subrange(l + 1, r);
        lemma_innermost_is_phrase(s, l, r);
        lemma_phrase_has_usual_tree(inner);
        lemma_no_parentheses_balanced(inner);
        lemma_parentheses_change_nothing(inner);
        let tree = resolve(inner)->Ok_0;
        let before = s.subrange(0, l);
        let after = s.subrange(r + 1, s.len() as int);
        assert(s == with_group(before, inner, after));
        assert(s.subrange(l, r + 1) == wrap(inner));
        lemma_group_is_its_tree(before, inner, after);
        let next = replace(s, l, r - l + 1, tree);
        assert(next == with_tree(before, tree, after));
        lemma_expression_with_tree(s, l, r, tree);
        lemma_expression_has_tree(next);
    } else {
        lemma_without_parentheses_is_phrase(s);
        lemma_phrase_has_usual_tree(s);
    }
}

/// A sequence is an expression where it is one with a tree in the place of
/// some of its tokens, and those tokens end as a value does, and each of them
/// may stand where it stands.
proof fn lemma_expression_without_tree(s: Seq<TokenView>, at: int, width: int, tree: TreeView)
    requires
        0 <= at,
        1 <= width,
        at + width <= s.len(),
        is_expression(replace(s, at, width, tree)),
        balanced(s.subrange(at, at + width)),
        forall|i: int| at <= i < at + width ==> #[trigger] fits(s, i),
        after_value(s, at + width),
    ensures
        is_expression(s),
{
    let next = replace(s, at, width, tree);
    assert(next.len() == s.len() - width + 1);
    lemma_replace_keeps_balance(s, at, width, tree, 0);
    assert forall|i: int| 0 <= i < s.len() implies #[trigger] fits(s, i) by {
        if i < at {
            assert(fits(next, i));
            assert(next[i] == s[i]);
            if i >= 1 {
                assert(next[i - 1] == s[i - 1]);
            }
            if i + 1 < at {
                assert(next[i + 1] == s[i + 1]);
            } else {
                assert(fits(s, at));
                assert(is_operand(next[at]));
            }
        } else if i >= at + width {
            let k = i - width + 1;
            assert(fits(next, k));
            assert(next[k] == s[i]);
            if k - 1 > at {
                assert(next[k - 1] == s[i - 1]);
            } else {
                assert(is_operand(next[at]));
            }
            if k + 1 < next.len() {
                assert(next[k + 1] == s[i + 1]);
            }
        }
    }
    if at + width < s.len() {
        assert(next[next.len() - 1] == s[s.len() - 1]);
        if next.len() >= 2 && next.len() - 2 > at {
            assert(next[next.len() - 2] == s[s.len() - 2]);
        }
    }
}

/// The tokens of a group in a sequence may stand where they stand, where
/// the parenthesis that opens the group may, and what the group encloses is
/// an expression.
proof fn lemma_group_fits(s: Seq<TokenView>, l: int, r: int)
    requires
        0 <= l < r < s.len(),
        s[l] is LParen,
        s[r] is RParen,
        value_place(s, l),
        is_expression(s.subrange(l + 1, r)),
    ensures
        forall|i: int| l <= i < r + 1 ==> #[trigger] fits(s, i),
        after_value(s, r + 1),
        balanced(s.subrange(l, r + 1)),
{
    let inner = s.subrange(l + 1, r);
    lemma_parentheses_change_nothing(inner);
    assert(s.subrange(l, r + 1) == wrap(inner));
    assert(inner[inner.len() - 1] == s[r - 1]);
    assert forall|i: int| l <= i < r + 1 implies #[trigger] fits(s, i) by {
        if l < i < r {
            let k = i - l - 1;
            assert(fits(inner, k));
            assert(inner[k] == s[i]);
            if k >= 1 {
                assert(inner[k - 1] == s[i - 1]);
            }
            if k + 1 < inner.len() {
                assert(inner[k + 1] == s[i + 1]);
            }
        }
    }
}

/// A sequence that a reduction makes an expression was one, where the
/// reduction was made from the start of the sequence, or from an operand.
proof fn lemma_step_back(s: Seq<TokenView>, at: int)
    requires
        0 <= at < s.len(),
        at == 0 || (is_operand(s[at]) && at + 1 < s.len()),
        step(s, at) is Ok,
        is_expression(step(s, at)->Ok_0),
    ensures
        is_expression(s),
    decreases s.len(), 1int, s.len() - at,
{
    let next = step(s, at)->Ok_0;
    match s[at] {
        TokenView::LParen => {
            lemma_group_back(s, at);
        },
        TokenView::RParen => {},
        TokenView::Constant(_) | TokenView::ParsedTree(_) => {
            assert(step(s, at) == from_operand(s, at));
            if at + 1 >= s.len() {
                let tree = operand_tree(s[at]);
                lemma_replace_maps(s, at, 1, tree);
                assert(fits(next, at));
                lemma_no_parentheses_balanced(s.subrange(at, at + 1));
                lemma_expression_without_tree(s, at, 1, tree);
            } else if s[at + 1] is Function {
                let tree = unary_node(node_value(s[at + 1]), operand_tree(s[at]));
                lemma_replace_maps(s, at, 2, tree);
                assert(fits(next, at));
                lemma_no_parentheses_balanced(s.subrange(at, at + 2));
                lemma_expression_without_tree(s, at, 2, tree);
            } else if s[at + 1] is Operator && at + 2 < s.len() {
                if s[at + 2] is LParen {
                    lemma_group_back(s, at + 2);
                } else if is_operand(s[at + 2]) {
                    if deferred(s, at + 2, s[at + 1]->Operator_priority) {
                        lemma_step_back(s, at + 2);
                    } else {
                        let tree = binary_node(
                            node_value(s[at + 1]),
                            operand_tree(s[at]),
                            operand_tree(s[at + 2]),
                        );
                        lemma_replace_maps(s, at, 3, tree);
                        assert(fits(next, at));
                        lemma_no_parentheses_balanced(s.subrange(at, at + 3));
                        lemma_expression_without_tree(s, at, 3, tree);
                    }
                }
            }
        },
        TokenView::Operator { priority, .. } => {
            assert(step(s, at) == from_operator(s, at));
            if at + 1 < s.len() {
                if s[at + 1] is LParen {
                    lemma_group_back(s, at + 1);
                } else if is_operand(s[at + 1]) {
                    if deferred(s, at + 1, priority) {
                        lemma_step_back(s, at + 1);
                    } else {
                        let tree = binary_node(
                            Some(minus()),
                            leaf(zero()),
                            operand_tree(s[at + 1]),
                        );
                        lemma_replace_maps(s, at, 2, tree);
                        lemma_no_parentheses_balanced(s.subrange(at, at + 2));
                        lemma_expression_without_tree(s, at, 2, tree);
                    }
                }
            }
        },
        TokenView::Function { priority, .. } => {
            assert(step(s, at) == from_function(s, at));
            if at + 1 < s.len() {
                if s[at + 1] is LParen {
                    lemma_group_back(s, at + 1);
                } else if is_operand(s[at + 1]) {
                    if deferred(s, at + 1, priority) {
                        lemma_step_back(s, at + 1);
                    } else {
                        let tree = unary_node(node_value(s[at]), operand_tree(s[at + 1]));
                        lemma_replace_maps(s, at, 2, tree);
                        lemma_no_parentheses_balanced(s.subrange(at, at + 2));
                        lemma_expression_without_tree(s, at, 2, tree);
                    }
                }
            }
        },
    }
}

/// A sequence that the reduction of a group makes an expression was one,
/// where the group stands where a value may begin.
proof fn lemma_group_back(s: Seq<TokenView>, at: int)
    requires
        0 <= at < s.len(),
        s[at] is LParen,
        value_place(s, at),
        group(s, at) is Ok,
        is_expression(group(s, at)->Ok_0),
    ensures
        is_expression(s),
    decreases s.len(), 0int, 0int,
{
    let end = closing(s, at + 1, 1)->0;
    lemma_closing_in_range(s, at + 1, 1);
    let inner = s.subrange(at + 1, end);
    lemma_tree_needs_expression(inner);
    lemma_group_fits(s, at, end);
    lemma_expression_without_tree(s, at, end - at + 1, resolve(inner)->Ok_0);
}

/// Only an expression has a tree.
pub proof fn lemma_tree_needs_expression(s: Seq<TokenView>)
    requires
        resolve(s) is Ok,
    ensures
        is_expression(s),
    decreases s.len(), 2int, 0int,
{
    if s.len() == 1 && is_operand(s[0]) {
        lemma_no_parentheses_balanced(s);
        assert(fits(s, 0));
    } else {
        lemma_step_shortens(s, 0);
        lemma_tree_needs_expression(step(s, 0)->Ok_0);
        lemma_step_back(s, 0);
    }
}

/// A sequence of tokens has a tree if and only if it is an expression.
pub proof fn lemma_tree_iff_expression(s: Seq<TokenView>)
    ensures
        resolve(s) is Ok <==> is_expression(s),
{
    if resolve(s) is Ok {
        lemma_tree_needs_expression(s);
    }
    if is_expression(s) {
        lemma_expression_has_tree(s);
    }
}

/// Where a parenthesis lacks its partner, there is no tree.
pub proof fn lemma_tree_needs_balance(s: Seq<TokenView>)
    requires
        !balanced(s),
    ensures
        resolve(s) is Err,
{
    if resolve(s) is Ok {
        lemma_tree_needs_expression(s);
    }
}

} // verus!
