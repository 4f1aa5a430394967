//! The usual reading of a sequence of tokens: each group is read by itself
//! and then stands as one operand, and what is left is read as a phrase. The
//! reducer gives each expression the tree of its usual reading.

use crate::acceptance::{
    first_closing, is_expression, last_opening, lemma_innermost_group, lemma_innermost_is_phrase,
    lemma_tree_iff_expression, lemma_expression_with_tree, lemma_without_parentheses_is_phrase,
};
use crate::grouping::{
    lemma_closing_passes, lemma_no_parentheses_balanced, lemma_parentheses_change_nothing,
    without_parentheses, wrap,
};
use crate::parser::{
    closing, lemma_closing_in_range, replace, resolve, ParseErrorView, TreeView,
};
use crate::phrases::{lemma_phrase_has_usual_tree, usual_tree};
use crate::substitution::{
    lemma_closing_beside, lemma_closing_same_tail, lemma_group_is_its_tree, with_group, with_tree,
};
use crate::tokeniser::TokenView;
use vstd::prelude::*;

verus! {

/// The tokens from `i` on with each group read: one tree stands for each
/// group, that of the usual reading of what the group encloses.
pub open spec fn groups_read(s: Seq<TokenView>, i: int) -> Seq<TokenView>
    decreases s.len(), 0int, s.len() - i,
{
    if i < 0 || i >= s.len() {
        Seq::empty()
    } else {
        match closing(s, i + 1, 1) {
            Some(end) => if s[i] is LParen && i < end < s.len() {
                seq![TokenView::ParsedTree(reading(s.subrange(i + 1, end)))] + groups_read(
                    s,
                    end + 1,
                )
            } else {
                seq![s[i]] + groups_read(s, i + 1)
            },
            None => seq![s[i]] + groups_read(s, i + 1),
        }
    }
}

/// The tree of the usual reading of a sequence: its groups are read, and
/// what is left is read as a phrase.
pub open spec fn reading(s: Seq<TokenView>) -> TreeView
    decreases s.len(), 1int, 0int,
{
    usual_tree(groups_read(s, 0))
}

/// Where there are no parentheses, there are no groups to read.
proof fn lemma_no_groups(s: Seq<TokenView>, i: int)
    requires
        0 <= i <= s.len(),
        without_parentheses(s),
    ensures
        groups_read(s, i) == s.subrange(i, s.len() as int),
    decreases s.len() - i,
{
    if i < s.len() {
        lemma_no_groups(s, i + 1);
        assert(!(s[i] is LParen));
        assert(seq![s[i]] + s.subrange(i + 1, s.len() as int) == s.subrange(i, s.len() as int));
    }
}

/// Two sequences that end alike are read alike from where they are alike.
proof fn lemma_groups_read_same_tail(c: Seq<TokenView>, x: int, a: Seq<TokenView>, y: int)
    requires
        0 <= x <= c.len(),
        0 <= y <= a.len(),
        c.subrange(x, c.len() as int) == a.subrange(y, a.len() as int),
    ensures
        groups_read(c, x) == groups_read(a, y),
    decreases c.len() - x,
{
    let tail = c.subrange(x, c.len() as int);
    assert(tail.len() == c.len() - x);
    assert(a.subrange(y, a.len() as int).len() == a.len() - y);
    if x < c.len() {
        assert(c[x] == tail[0]);
        assert(a[y] == a.subrange(y, a.len() as int)[0]);
        assert(c.subrange(x + 1, c.len() as int) == tail.drop_first());
        assert(a.subrange(y + 1, a.len() as int) == a.subrange(y, a.len() as int).drop_first());
        lemma_closing_same_tail(c, x + 1, a, y + 1, 1);
        lemma_closing_in_range(c, x + 1, 1);
        lemma_groups_read_same_tail(c, x + 1, a, y + 1);
        if let Some(end) = closing(c, x + 1, 1) {
            if c[x] is LParen {
                let there = end - x + y;
                assert(c.subrange(x + 1, end) == tail.subrange(1, end - x));
                assert(a.subrange(y + 1, there) == a.subrange(y, a.len() as int).subrange(
                    1,
                    end - x,
                ));
                assert(c.subrange(end + 1, c.len() as int) == tail.subrange(
                    end + 1 - x,
                    tail.len() as int,
                ));
                assert(a.subrange(there + 1, a.len() as int) == a.subrange(
                    y,
                    a.len() as int,
                ).subrange(end + 1 - x, tail.len() as int));
                lemma_groups_read_same_tail(c, end + 1, a, there + 1);
            }
        }
    }
}

/// A sequence with a group that encloses a phrase is read, from any place
/// before the group on, as the sequence with the tree of the phrase in the
/// place of the group.
proof fn lemma_groups_read_beside(
    before: Seq<TokenView>,
    inner: Seq<TokenView>,
    after: Seq<TokenView>,
    i: int,
)
    requires
        without_parentheses(inner),
        0 <= i <= before.len(),
    ensures
        groups_read(with_group(before, inner, after), i) == groups_read(
            with_tree(before, usual_tree(inner), after),
            i,
        ),
    decreases before.len() + inner.len() + after.len(), 0int, before.len() - i,
{
    let tree = usual_tree(inner);
    let c = with_group(before, inner, after);
    let a = with_tree(before, tree, after);
    let g = before.len() as int;
    lemma_no_parentheses_balanced(inner);
    if i == g {
        let end = g + 1 + inner.len();
        assert(c[g] is LParen);
        assert(c.subrange(g + 1, end) == inner);
        lemma_closing_passes(c, g + 1, inner, 1, 0);
        assert(c[end] is RParen);
        assert(closing(c, g + 1, 1) == Some(end));
        lemma_no_groups(inner, 0);
        assert(inner.subrange(0, inner.len() as int) == inner);
        assert(reading(inner) == tree);
        assert(a[g] == TokenView::ParsedTree(tree));
        assert(c.subrange(end + 1, c.len() as int) == a.subrange(g + 1, a.len() as int));
        lemma_groups_read_same_tail(c, end + 1, a, g + 1);
    } else {
        assert(c[i] == before[i]);
        assert(a[i] == before[i]);
        lemma_closing_beside(before, inner, tree, after, i + 1, 1);
        lemma_closing_in_range(a, i + 1, 1);
        lemma_groups_read_beside(before, inner, after, i + 1);
        if let Some(end) = closing(a, i + 1, 1) {
            if c[i] is LParen {
                if end < g {
                    assert(c.subrange(i + 1, end) =~= a.subrange(i + 1, end));
                    lemma_groups_read_beside(before, inner, after, end + 1);
                } else {
                    let last = end + inner.len() + 1;
                    let head = before.subrange(i + 1, g);
                    let tail = after.subrange(0, end - g - 1);
                    assert(c.subrange(i + 1, last) =~= with_group(head, inner, tail));
                    assert(a.subrange(i + 1, end) =~= with_tree(head, tree, tail));
                    lemma_reading_beside(head, inner, tail);
                    assert(c.subrange(last + 1, c.len() as int) == a.subrange(
                        end + 1,
                        a.len() as int,
                    ));
                    lemma_groups_read_same_tail(c, last + 1, a, end + 1);
                }
            }
        }
    }
}

/// A sequence with a group that encloses a phrase has the usual reading of
/// the sequence with the tree of the phrase in the place of the group.
proof fn lemma_reading_beside(before: Seq<TokenView>, inner: Seq<TokenView>, after: Seq<TokenView>)
    requires
        without_parentheses(inner),
    ensures
        reading(with_group(before, inner, after)) == reading(
            with_tree(before, usual_tree(inner), after),
        ),
    decreases before.len() + inner.len() + after.len(), 1int, 0int,
{
    lemma_groups_read_beside(before, inner, after, 0);
}

/// An expression has the tree of its usual reading.
pub proof fn lemma_expression_has_usual_reading(s: Seq<TokenView>)
    requires
        is_expression(s),
    ensures
        resolve(s) == Ok::<TreeView, ParseErrorView>(reading(s)),
    decreases s.len(),
{
    if !without_parentheses(s) {
        lemma_innermost_group(s);
        let r = first_closing(s, 0);
        let l = last_opening(s, r);
        let inner = s.subrange(l + 1, r);
        lemma_innermost_is_phrase(s, l, r);
        lemma_phrase_has_usual_tree(inner);
        lemma_no_parentheses_balanced(inner);
        lemma_parentheses_change_nothing(inner);
        let tree = usual_tree(inner);
        let before = s.subrange(0, l);
        let after = s.subrange(r + 1, s.len() as int);
        assert(s == with_group(before, inner, after));
        assert(s.subrange(l, r + 1) == wrap(inner));
        lemma_group_is_its_tree(before, inner, after);
        let next = replace(s, l, r - l + 1, tree);
        assert(next == with_tree(before, tree, after));
        lemma_expression_with_tree(s, l, r, tree);
        lemma_expression_has_usual_reading(next);
        lemma_reading_beside(before, inner, after);
    } else {
        lemma_no_groups(s, 0);
        assert(s.subrange(0, s.len() as int) == s);
        lemma_without_parentheses_is_phrase(s);
        lemma_phrase_has_usual_tree(s);
    }
}

/// A sequence of tokens has a tree if and only if it is an expression, and
/// the tree is that of its usual reading.
pub proof fn lemma_tree_is_usual_reading(s: Seq<TokenView>)
    ensures
        resolve(s) is Ok <==> is_expression(s),
        resolve(s) matches Ok(tree) ==> tree == reading(s),
{
    lemma_tree_iff_expression(s);
    if is_expression(s) {
        lemma_expression_has_usual_reading(s);
    }
}

} // verus!
