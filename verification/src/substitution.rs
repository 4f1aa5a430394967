//! A group stands for its tree: wherever a group stands whose inside has a
//! tree, the sequence has the tree, or the error, that it has with that tree
//! in the place of the group.

use crate::grouping::{
    balanced, lemma_closing_passes, lemma_group_by_itself, lemma_parentheses_change_nothing, wrap,
};
use crate::parser::{
    closing, deferred, from_function, from_operand, from_operator, group, is_operand,
    lemma_closing_in_range, lemma_step_shortens, replace, resolve, step, ParseErrorView,
    TreeView,
};
use crate::tokeniser::TokenView;
use vstd::prelude::*;

verus! {

/// A sequence with a group in it.
pub open spec fn with_group(
    before: Seq<TokenView>,
    inner: Seq<TokenView>,
    after: Seq<TokenView>,
) -> Seq<TokenView> {
    before + wrap(inner) + after
}

/// A sequence with a tree in it.
pub open spec fn with_tree(
    before: Seq<TokenView>,
    tree: TreeView,
    after: Seq<TokenView>,
) -> Seq<TokenView> {
    before + seq![TokenView::ParsedTree(tree)] + after
}

/// What one reduction makes of a sequence with a group and of the same
/// sequence with the tree of the group: the first becomes the second; or
/// both become the same; or both are reduced before the group in the same
/// way.
pub open spec fn alike(
    of_group: Result<Seq<TokenView>, ParseErrorView>,
    of_tree: Result<Seq<TokenView>, ParseErrorView>,
    before: Seq<TokenView>,
    inner: Seq<TokenView>,
    tree: TreeView,
    after: Seq<TokenView>,
) -> bool {
    ||| of_group == Ok::<Seq<TokenView>, ParseErrorView>(with_tree(before, tree, after))
    ||| of_group == of_tree
    ||| exists|shorter: Seq<TokenView>|
        shorter.len() < before.len() && of_group == Ok::<Seq<TokenView>, ParseErrorView>(
            #[trigger] with_group(shorter, inner, after),
        ) && of_tree == Ok::<Seq<TokenView>, ParseErrorView>(with_tree(shorter, tree, after))
}

/// The search for a closing parenthesis finds the same in two sequences that
/// end alike.
pub proof fn lemma_closing_same_tail(
    c: Seq<TokenView>,
    x: int,
    a: Seq<TokenView>,
    y: int,
    depth: nat,
)
    requires
        0 <= x <= c.len(),
        0 <= y <= a.len(),
        c.subrange(x, c.len() as int) == a.subrange(y, a.len() as int),
    ensures
        match closing(c, x, depth) {
            Some(end) => closing(a, y, depth) == Some(end - x + y),
            None => closing(a, y, depth) is None,
        },
    decreases c.len() - x,
{
    let tail = c.subrange(x, c.len() as int);
    assert(tail.len() == c.len() - x);
    assert(a.subrange(y, a.len() as int).len() == a.len() - y);
    if x < c.len() && depth > 0 {
        assert(c[x] == tail[0]);
        assert(a[y] == a.subrange(y, a.len() as int)[0]);
        assert(c.subrange(x + 1, c.len() as int) == tail.drop_first());
        assert(a.subrange(y + 1, a.len() as int) == a.subrange(y, a.len() as int).drop_first());
        if c[x] is LParen {
            lemma_closing_same_tail(c, x + 1, a, y + 1, depth + 1);
        } else if c[x] is RParen {
            if depth > 1 {
                lemma_closing_same_tail(c, x + 1, a, y + 1, (depth - 1) as nat);
            }
        } else {
            lemma_closing_same_tail(c, x + 1, a, y + 1, depth);
        }
    }
}

/// The search for a closing parenthesis from before a group ends where it
/// ends with a tree in the place of the group, counted by the tokens of the
/// group.
pub proof fn lemma_closing_beside(
    before: Seq<TokenView>,
    inner: Seq<TokenView>,
    tree: TreeView,
    after: Seq<TokenView>,
    i: int,
    depth: nat,
)
    requires
        balanced(inner),
        0 <= i <= before.len(),
        depth >= 1,
    ensures
        match closing(with_tree(before, tree, after), i, depth) {
            Some(end) => end != before.len() && closing(
                with_group(before, inner, after),
                i,
                depth,
            ) == Some(
                if end < before.len() {
                    end
                } else {
                    end + inner.len() + 1
                },
            ),
            None => closing(with_group(before, inner, after), i, depth) is None,
        },
    decreases before.len() - i,
{
    let c = with_group(before, inner, after);
    let a = with_tree(before, tree, after);
    let g = before.len() as int;
    if i == g {
        assert(c[g] is LParen);
        assert(a[g] is ParsedTree);
        assert(c.subrange(g + 1, g + 1 + inner.len()) == inner);
        lemma_closing_passes(c, g + 1, inner, depth + 1, 0);
        assert(c[g + 1 + inner.len()] is RParen);
        assert(closing(c, g, depth) == closing(c, g + 2 + inner.len(), depth));
        assert(closing(a, g, depth) == closing(a, g + 1, depth));
        assert(c.subrange(g + 2 + inner.len(), c.len() as int) == a.subrange(g + 1, a.len() as int));
        lemma_closing_same_tail(c, g + 2 + inner.len(), a, g + 1, depth);
        lemma_closing_in_range(a, g + 1, depth);
    } else {
        assert(c[i] == before[i]);
        assert(a[i] == before[i]);
        if c[i] is LParen {
            lemma_closing_beside(before, inner, tree, after, i + 1, depth + 1);
        } else if c[i] is RParen {
            if depth > 1 {
                lemma_closing_beside(before, inner, tree, after, i + 1, (depth - 1) as nat);
            }
        } else {
            lemma_closing_beside(before, inner, tree, after, i + 1, depth);
        }
    }
}

/// A tree that takes the place of tokens before the group leaves the group
/// where it was, after fewer tokens.
proof fn lemma_replace_before(
    before: Seq<TokenView>,
    inner: Seq<TokenView>,
    tree: TreeView,
    after: Seq<TokenView>,
    at: int,
    width: int,
    made: TreeView,
)
    requires
        0 <= at,
        2 <= width,
        at + width <= before.len(),
    ensures
        alike(
            Ok(replace(with_group(before, inner, after), at, width, made)),
            Ok(replace(with_tree(before, tree, after), at, width, made)),
            before,
            inner,
            tree,
            after,
        ),
{
    let shorter = replace(before, at, width, made);
    let c = with_group(before, inner, after);
    let a = with_tree(before, tree, after);
    assert(replace(c, at, width, made) =~= with_group(shorter, inner, after));
    assert(replace(a, at, width, made) =~= with_tree(shorter, tree, after));
}

/// The reduction of a group that begins before another group, whose inside
/// has a tree.
proof fn lemma_group_beside(
    before: Seq<TokenView>,
    inner: Seq<TokenView>,
    tree: TreeView,
    after: Seq<TokenView>,
    at: int,
)
    requires
        balanced(inner),
        resolve(inner) == Ok::<TreeView, ParseErrorView>(tree),
        0 <= at < before.len(),
    ensures
        alike(
            group(with_group(before, inner, after), at),
            group(with_tree(before, tree, after), at),
            before,
            inner,
            tree,
            after,
        ),
    decreases before.len() + inner.len() + after.len(), 0int, 0int,
{
    let c = with_group(before, inner, after);
    let a = with_tree(before, tree, after);
    let g = before.len() as int;
    lemma_closing_beside(before, inner, tree, after, at + 1, 1);
    lemma_closing_in_range(a, at + 1, 1);
    if let Some(end) = closing(a, at + 1, 1) {
        if end < g {
            assert(c.subrange(at + 1, end) =~= a.subrange(at + 1, end));
            if let Ok(made) = resolve(a.subrange(at + 1, end)) {
                lemma_replace_before(before, inner, tree, after, at, end - at + 1, made);
            }
        } else {
            let last = end + inner.len() + 1;
            let head = before.subrange(at + 1, g);
            let tail = after.subrange(0, end - g - 1);
            assert(c.subrange(at + 1, last) =~= with_group(head, inner, tail));
            assert(a.subrange(at + 1, end) =~= with_tree(head, tree, tail));
            lemma_group_is_its_tree(head, inner, tail);
            if let Ok(made) = resolve(a.subrange(at + 1, end)) {
                assert(replace(c, at, last - at + 1, made) =~= replace(a, at, end - at + 1, made));
            }
        }
    }
}

/// One reduction from a place before a group, or at it, whose inside has a
/// tree.
proof fn lemma_step_beside(
    before: Seq<TokenView>,
    inner: Seq<TokenView>,
    tree: TreeView,
    after: Seq<TokenView>,
    at: int,
)
    requires
        balanced(inner),
        resolve(inner) == Ok::<TreeView, ParseErrorView>(tree),
        0 <= at <= before.len(),
    ensures
        alike(
            step(with_group(before, inner, after), at),
            step(with_tree(before, tree, after), at),
            before,
            inner,
            tree,
            after,
        ),
    decreases before.len() + inner.len() + after.len(), 1int, before.len() - at,
{
    let c = with_group(before, inner, after);
    let a = with_tree(before, tree, after);
    let g = before.len() as int;
    lemma_group_by_itself(before, inner, after);
    assert(c[g] is LParen);
    assert(a[g] is ParsedTree);
    assert(forall|i: int| 0 <= i < g ==> c[i] == before[i] && a[i] == before[i]);
    if at < g {
        assert(c[at] == a[at]);
        match c[at] {
            TokenView::LParen => {
                lemma_group_beside(before, inner, tree, after, at);
            },
            TokenView::RParen => {},
            TokenView::Constant(_) | TokenView::ParsedTree(_) => {
                assert(step(c, at) == from_operand(c, at));
                assert(step(a, at) == from_operand(a, at));
                if at + 1 < g {
                    assert(c[at + 1] == a[at + 1]);
                    if c[at + 1] is Function {
                        if from_operand(c, at) is Ok {
                            lemma_replace_before(
                                before,
                                inner,
                                tree,
                                after,
                                at,
                                2,
                                from_operand(c, at)->Ok_0[at]->ParsedTree_0,
                            );
                        }
                    } else if c[at + 1] is Operator {
                        if at + 2 < g {
                            assert(c[at + 2] == a[at + 2]);
                            if c[at + 2] is LParen {
                                lemma_group_beside(before, inner, tree, after, at + 2);
                            } else if is_operand(c[at + 2]) {
                                let priority = c[at + 1]->Operator_priority;
                                assert(deferred(c, at + 2, priority) == deferred(
                                    a,
                                    at + 2,
                                    priority,
                                )) by {
                                    if at + 3 < g {
                                        assert(c[at + 3] == a[at + 3]);
                                    }
                                }
                                if deferred(c, at + 2, priority) {
                                    lemma_step_beside(before, inner, tree, after, at + 2);
                                } else {
                                    lemma_replace_before(
                                        before,
                                        inner,
                                        tree,
                                        after,
                                        at,
                                        3,
                                        from_operand(c, at)->Ok_0[at]->ParsedTree_0,
                                    );
                                }
                            }
                        }
                    }
                }
            },
            TokenView::Operator { .. } => {
                assert(step(c, at) == from_operator(c, at));
                assert(step(a, at) == from_operator(a, at));
                if at + 1 < g {
                    assert(c[at + 1] == a[at + 1]);
                    if c[at + 1] is LParen {
                        lemma_group_beside(before, inner, tree, after, at + 1);
                    } else if is_operand(c[at + 1]) {
                        let priority = c[at]->Operator_priority;
                        assert(deferred(c, at + 1, priority) == deferred(a, at + 1, priority)) by {
                            if at + 2 < g {
                                assert(c[at + 2] == a[at + 2]);
                            }
                        }
                        if deferred(c, at + 1, priority) {
                            lemma_step_beside(before, inner, tree, after, at + 1);
                        } else if from_operator(c, at) is Ok {
                            lemma_replace_before(
                                before,
                                inner,
                                tree,
                                after,
                                at,
                                2,
                                from_operator(c, at)->Ok_0[at]->ParsedTree_0,
                            );
                        }
                    }
                }
            },
            TokenView::Function { .. } => {
                assert(step(c, at) == from_function(c, at));
                assert(step(a, at) == from_function(a, at));
                if at + 1 < g {
                    assert(c[at + 1] == a[at + 1]);
                    if c[at + 1] is LParen {
                        lemma_group_beside(before, inner, tree, after, at + 1);
                    } else if is_operand(c[at + 1]) {
                        let priority = c[at]->Function_priority;
                        assert(deferred(c, at + 1, priority) == deferred(a, at + 1, priority)) by {
                            if at + 2 < g {
                                assert(c[at + 2] == a[at + 2]);
                            }
                        }
                        if deferred(c, at + 1, priority) {
                            lemma_step_beside(before, inner, tree, after, at + 1);
                        } else if from_function(c, at) is Ok {
                            lemma_replace_before(
                                before,
                                inner,
                                tree,
                                after,
                                at,
                                2,
                                from_function(c, at)->Ok_0[at]->ParsedTree_0,
                            );
                        }
                    }
                }
            },
        }
    }
}

/// A group whose inside has a tree stands for that tree: the sequence has
/// the tree, or the error, that it has with the tree in the place of the
/// group.
pub proof fn lemma_group_is_its_tree(
    before: Seq<TokenView>,
    inner: Seq<TokenView>,
    after: Seq<TokenView>,
)
    requires
        balanced(inner),
        resolve(inner) is Ok,
    ensures
        resolve(with_group(before, inner, after)) == resolve(
            with_tree(before, resolve(inner)->Ok_0, after),
        ),
    decreases before.len() + inner.len() + after.len(), 2int, 0int,
{
    let tree = resolve(inner)->Ok_0;
    let c = with_group(before, inner, after);
    let a = with_tree(before, tree, after);
    if a.len() == 1 {
        assert(before.len() == 0 && after.len() == 0);
        assert(c =~= wrap(inner));
        lemma_parentheses_change_nothing(inner);
        assert(a[0] == TokenView::ParsedTree(tree));
    } else {
        lemma_step_beside(before, inner, tree, after, 0);
        lemma_step_shortens(c, 0);
        lemma_step_shortens(a, 0);
        let of_group = step(c, 0);
        let of_tree = step(a, 0);
        if of_group == Ok::<Seq<TokenView>, ParseErrorView>(a) {
        } else if of_group == of_tree {
        } else {
            let shorter = choose|shorter: Seq<TokenView>|
                shorter.len() < before.len() && of_group == Ok::<Seq<TokenView>, ParseErrorView>(
                    #[trigger] with_group(shorter, inner, after),
                ) && of_tree == Ok::<Seq<TokenView>, ParseErrorView>(
                    with_tree(shorter, tree, after),
                );
            lemma_group_is_its_tree(shorter, inner, after);
        }
    }
}

} // verus!
