//! What parentheses do to a reduction: a group is reduced by itself, and a
//! pair of parentheses around a sequence changes nothing.

use crate::parser::{
    closing, group, is_operand, leaf, replace, resolve, step, ParseErrorView, TreeView,
};
use crate::tokeniser::{NumberView, TokenView};
use vstd::prelude::*;

verus! {

/// How many parentheses are open after the tokens of `s`, if `open` were open
/// before them; none where a parenthesis closes what was never opened.
pub open spec fn open_after(s: Seq<TokenView>, open: nat) -> Option<nat>
    decreases s.len(),
{
    if s.len() == 0 {
        Some(open)
    } else if s[0] is LParen {
        open_after(s.drop_first(), open + 1)
    } else if s[0] is RParen {
        if open == 0 {
            None
        } else {
            open_after(s.drop_first(), (open - 1) as nat)
        }
    } else {
        open_after(s.drop_first(), open)
    }
}

/// An opening or a closing parenthesis.
pub open spec fn is_parenthesis(t: TokenView) -> bool {
    t is LParen || t is RParen
}

/// No token of `s` is a parenthesis.
pub open spec fn without_parentheses(s: Seq<TokenView>) -> bool {
    forall|i: int| 0 <= i < s.len() ==> !is_parenthesis(#[trigger] s[i])
}

/// Each parenthesis of `s` has its partner in `s`.
pub open spec fn balanced(s: Seq<TokenView>) -> bool {
    open_after(s, 0) == Some(0nat)
}

/// The tokens of `s` in parentheses.
pub open spec fn wrap(s: Seq<TokenView>) -> Seq<TokenView> {
    seq![TokenView::LParen] + s + seq![TokenView::RParen]
}

/// The tokens of `s` in `n` pairs of parentheses.
pub open spec fn nested(s: Seq<TokenView>, n: nat) -> Seq<TokenView>
    decreases n,
{
    if n == 0 {
        s
    } else {
        wrap(nested(s, (n - 1) as nat))
    }
}

/// The parentheses open after two sequences in a row are those open after
/// the second, begun with those open after the first.
pub proof fn lemma_open_after_concat(a: Seq<TokenView>, b: Seq<TokenView>, open: nat)
    ensures
        open_after(a + b, open) == match open_after(a, open) {
            Some(between) => open_after(b, between),
            None => None,
        },
    decreases a.len(),
{
    if a.len() == 0 {
        assert(a + b == b);
    } else {
        assert((a + b).drop_first() == a.drop_first() + b);
        if a[0] is LParen {
            lemma_open_after_concat(a.drop_first(), b, open + 1);
        } else if a[0] is RParen {
            if open > 0 {
                lemma_open_after_concat(a.drop_first(), b, (open - 1) as nat);
            }
        } else {
            lemma_open_after_concat(a.drop_first(), b, open);
        }
    }
}

/// More parentheses open before a sequence are as many more open after it.
pub proof fn lemma_open_after_deeper(s: Seq<TokenView>, open: nat, more: nat)
    requires
        open_after(s, open) is Some,
    ensures
        open_after(s, open + more) == Some(open_after(s, open)->0 + more),
    decreases s.len(),
{
    if s.len() > 0 {
        if s[0] is LParen {
            lemma_open_after_deeper(s.drop_first(), open + 1, more);
        } else if s[0] is RParen {
            lemma_open_after_deeper(s.drop_first(), (open - 1) as nat, more);
        } else {
            lemma_open_after_deeper(s.drop_first(), open, more);
        }
    }
}

/// The search for a closing parenthesis passes over a part of the sequence
/// that closes none but its own.
pub proof fn lemma_closing_passes(
    t: Seq<TokenView>,
    i: int,
    s: Seq<TokenView>,
    depth: nat,
    open: nat,
)
    requires
        0 <= i,
        i + s.len() <= t.len(),
        t.subrange(i, i + s.len()) == s,
        depth >= 1,
        open_after(s, open) is Some,
    ensures
        closing(t, i, depth + open) == closing(t, i + s.len(), depth + open_after(s, open)->0),
    decreases s.len(),
{
    if s.len() > 0 {
        assert(t[i] == s[0]);
        assert(t.subrange(i + 1, i + 1 + s.drop_first().len()) == s.drop_first());
        if s[0] is LParen {
            lemma_closing_passes(t, i + 1, s.drop_first(), depth, open + 1);
        } else if s[0] is RParen {
            lemma_closing_passes(t, i + 1, s.drop_first(), depth, (open - 1) as nat);
        } else {
            lemma_closing_passes(t, i + 1, s.drop_first(), depth, open);
        }
    }
}

/// A balanced group is reduced by itself: the tree of what it encloses takes
/// its place, and an error of what it encloses is the error of the whole.
pub proof fn lemma_group_by_itself(
    before: Seq<TokenView>,
    inner: Seq<TokenView>,
    after: Seq<TokenView>,
)
    requires
        balanced(inner),
    ensures
        group(before + wrap(inner) + after, before.len() as int) == match resolve(inner) {
            Ok(tree) => Ok::<Seq<TokenView>, ParseErrorView>(
                before + seq![TokenView::ParsedTree(tree)] + after,
            ),
            Err(e) => Err(e),
        },
{
    let t = before + wrap(inner) + after;
    let at = before.len() as int;
    let end = at + 1 + inner.len();
    assert(t.subrange(at + 1, end) == inner);
    lemma_closing_passes(t, at + 1, inner, 1, 0);
    assert(t[end] is RParen);
    assert(closing(t, at + 1, 1) == Some(end));
    match resolve(inner) {
        Ok(tree) => {
            assert(replace(t, at, end - at + 1, tree) =~= before + seq![
                TokenView::ParsedTree(tree),
            ] + after);
        },
        Err(_) => {},
    }
}

/// Parentheses around a balanced sequence change nothing: the tree is that of
/// the sequence, and so is the error.
pub proof fn lemma_parentheses_change_nothing(s: Seq<TokenView>)
    requires
        balanced(s),
    ensures
        resolve(wrap(s)) == resolve(s),
        balanced(wrap(s)),
{
    let w = wrap(s);
    assert(w == Seq::<TokenView>::empty() + wrap(s) + Seq::<TokenView>::empty());
    lemma_group_by_itself(Seq::empty(), s, Seq::empty());
    assert(w[0] is LParen);
    match resolve(s) {
        Ok(tree) => {
            let next = seq![TokenView::ParsedTree(tree)];
            assert(Seq::<TokenView>::empty() + next + Seq::<TokenView>::empty() == next);
            assert(step(w, 0) == Ok::<Seq<TokenView>, ParseErrorView>(next));
            assert(next.len() < w.len());
            assert(resolve(next) == Ok::<TreeView, ParseErrorView>(tree));
        },
        Err(_) => {},
    }
    lemma_open_after_deeper(s, 0, 1);
    lemma_open_after_concat(s, seq![TokenView::RParen], 1);
    assert(open_after(seq![TokenView::RParen], 1) == Some(0nat)) by {
        reveal_with_fuel(open_after, 2);
    }
    assert(w.drop_first() == s + seq![TokenView::RParen]);
}

/// However deep a balanced sequence is nested in parentheses, its tree is the
/// one that it has without them.
pub proof fn lemma_nesting_changes_nothing(s: Seq<TokenView>, n: nat)
    requires
        balanced(s),
    ensures
        resolve(nested(s, n)) == resolve(s),
        balanced(nested(s, n)),
    decreases n,
{
    if n > 0 {
        lemma_nesting_changes_nothing(s, (n - 1) as nat);
        lemma_parentheses_change_nothing(nested(s, (n - 1) as nat));
    }
}

/// A number nested in parentheses, however deep, is that number.
pub proof fn lemma_nested_number(number: NumberView, n: nat)
    ensures
        resolve(nested(seq![TokenView::Constant(number)], n)) == Ok::<TreeView, ParseErrorView>(
            leaf(number),
        ),
{
    let s = seq![TokenView::Constant(number)];
    assert(balanced(s)) by {
        reveal_with_fuel(open_after, 2);
    }
    lemma_nesting_changes_nothing(s, n);
}

/// A sequence that begins with a parenthesis which nothing closes has no
/// tree.
pub proof fn lemma_unclosed_parenthesis(s: Seq<TokenView>)
    requires
        s.len() >= 1,
        s[0] is LParen,
        closing(s, 1, 1) is None,
    ensures
        resolve(s) == Err::<TreeView, ParseErrorView>(ParseErrorView::UnmatchedLParen),
{
    assert(group(s, 0) == Err::<Seq<TokenView>, ParseErrorView>(ParseErrorView::UnmatchedLParen));
    assert(step(s, 0) == group(s, 0));
    assert(!is_operand(s[0]));
}

/// A sequence that begins with a closing parenthesis has no tree.
pub proof fn lemma_stray_parenthesis(s: Seq<TokenView>)
    requires
        s.len() >= 1,
        s[0] is RParen,
    ensures
        resolve(s) == Err::<TreeView, ParseErrorView>(ParseErrorView::UnexpectedRParen),
{
    assert(step(s, 0) == Err::<Seq<TokenView>, ParseErrorView>(ParseErrorView::UnexpectedRParen));
}

/// A tree in the place of tokens among which the parentheses are balanced
/// leaves as many parentheses open as before.
pub proof fn lemma_replace_keeps_balance(
    s: Seq<TokenView>,
    at: int,
    width: int,
    tree: TreeView,
    open: nat,
)
    requires
        0 <= at,
        0 <= width,
        at + width <= s.len(),
        balanced(s.subrange(at, at + width)),
    ensures
        open_after(replace(s, at, width, tree), open) == open_after(s, open),
{
    let before = s.subrange(0, at);
    let part = s.subrange(at, at + width);
    let after = s.subrange(at + width, s.len() as int);
    let made = seq![TokenView::ParsedTree(tree)];
    assert(s == before + part + after);
    assert(replace(s, at, width, tree) == before + made + after);
    lemma_open_after_concat(before, part, open);
    lemma_open_after_concat(before + part, after, open);
    lemma_open_after_concat(before, made, open);
    lemma_open_after_concat(before + made, after, open);
    if let Some(between) = open_after(before, open) {
        lemma_open_after_deeper(part, 0, between);
        assert(open_after(made, between) == Some(between)) by {
            reveal_with_fuel(open_after, 2);
        }
    }
}

/// A sequence without parentheses is balanced.
pub proof fn lemma_no_parentheses_balanced(s: Seq<TokenView>)
    requires
        without_parentheses(s),
    ensures
        balanced(s),
    decreases s.len(),
{
    if s.len() > 0 {
        let rest = s.drop_first();
        assert(!is_parenthesis(s[0]));
        assert forall|i: int| 0 <= i < rest.len() implies !is_parenthesis(#[trigger] rest[i]) by {
            assert(rest[i] == s[i + 1]);
        }
        lemma_no_parentheses_balanced(rest);
    }
}

} // verus!
