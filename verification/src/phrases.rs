//! Phrases: operands with operators between them, functions after them, and
//! a minus or a function before the first. The reducer gives each phrase the
//! tree of its usual reading.

use crate::parser::{
    binary_node, deferred, from_function, from_operand, from_operator, is_operand, leaf, minus,
    node_value, operand_tree, replace, resolve, step, unary_node, zero, ParseErrorView, TreeView,
};
use crate::precedence::{is_minus, is_postfix, is_prefix, lemma_resolve_after_step};
use crate::tokeniser::TokenView;
use vstd::prelude::*;

verus! {

/// A token that is applied to operands: an operator or a function.
pub open spec fn is_application(t: TokenView) -> bool {
    t is Operator || t is Function
}

/// The priority of an operator or a function.
pub open spec fn priority_of(t: TokenView) -> i32 {
    match t {
        TokenView::Operator { priority, .. } => priority,
        TokenView::Function { priority, .. } => priority,
        _ => 0,
    }
}

/// A token that can stand before the first operand: a minus, or a function
/// that takes the operand after it.
pub open spec fn is_leader(t: TokenView) -> bool {
    is_prefix(t) || is_minus(t)
}

/// Whether the token at `i` may follow the token before it: an operand an
/// operator, or the function at the start; an operator an operand or a
/// function, with an operand after it; a function, which takes the operand
/// before it, an operand or a function.
pub open spec fn follows(s: Seq<TokenView>, i: int) -> bool {
    match s[i] {
        TokenView::Constant(_) | TokenView::ParsedTree(_) => s[i - 1] is Operator || (i == 1
            && is_prefix(s[0])),
        TokenView::Operator { .. } => (is_operand(s[i - 1]) || is_postfix(s[i - 1])) && i + 1
            < s.len() && is_operand(s[i + 1]),
        TokenView::Function { .. } => is_postfix(s[i]) && (is_operand(s[i - 1]) || is_postfix(
            s[i - 1],
        )),
        _ => false,
    }
}

/// A phrase: it begins with an operand, or with a leader and an operand, and
/// each further token may follow the one before it.
pub open spec fn is_phrase(s: Seq<TokenView>) -> bool {
    &&& s.len() >= 1
    &&& is_operand(s[0]) || (is_leader(s[0]) && s.len() >= 2 && is_operand(s[1]))
    &&& forall|i: int| 1 <= i < s.len() ==> #[trigger] follows(s, i)
}

/// An application that can be the last one applied: an operator, the leader,
/// or a function at the end.
pub open spec fn is_candidate(s: Seq<TokenView>, i: int) -> bool {
    is_application(s[i]) && (is_postfix(s[i]) ==> i == s.len() - 1)
}

/// All the applications to the right of `i` are of a higher priority.
pub open spec fn outranked(s: Seq<TokenView>, i: int) -> bool {
    forall|k: int|
        i < k < s.len() && is_application(#[trigger] s[k]) ==> priority_of(s[i]) < priority_of(
            s[k],
        )
}

/// The first place from `i` on of an application that can be applied last
/// and that all to the right of it outrank.
pub open spec fn first_outranked(s: Seq<TokenView>, i: int) -> int
    decreases s.len() - i,
{
    if i >= s.len() {
        i
    } else if is_candidate(s, i) && outranked(s, i) {
        i
    } else {
        first_outranked(s, i + 1)
    }
}

/// The place of the application that the usual reading applies last: the
/// leftmost that all to the right of it outrank.
pub open spec fn last_applied(s: Seq<TokenView>) -> int {
    first_outranked(s, 0)
}

/// Whether `m` is that place.
pub open spec fn is_last_applied(s: Seq<TokenView>, m: int) -> bool {
    &&& 0 <= m < s.len()
    &&& is_candidate(s, m)
    &&& outranked(s, m)
    &&& forall|i: int| 0 <= i < m ==> !(#[trigger] is_candidate(s, i) && outranked(s, i))
}

/// The tree of a leader and of the tree that it is applied to.
pub open spec fn led(leader: TokenView, operand: TreeView) -> TreeView {
    if leader is Operator {
        binary_node(Some(minus()), leaf(zero()), operand)
    } else {
        unary_node(node_value(leader), operand)
    }
}

/// The tree of the usual reading of a phrase: the application applied last
/// is the leftmost that all to the right of it outrank, and what stands to
/// the left of it and to the right of it is read in the same way.
pub open spec fn usual_tree(s: Seq<TokenView>) -> TreeView
    decreases s.len(),
{
    let m = last_applied(s);
    if s.len() < 2 || m < 0 || m >= s.len() {
        operand_tree(s[0])
    } else if m == 0 {
        led(s[0], usual_tree(s.subrange(1, s.len() as int)))
    } else if s[m] is Operator && m + 1 < s.len() {
        binary_node(
            node_value(s[m]),
            usual_tree(s.subrange(0, m)),
            usual_tree(s.subrange(m + 1, s.len() as int)),
        )
    } else {
        unary_node(node_value(s[m]), usual_tree(s.subrange(0, m)))
    }
}

/// The tokens that are joined when the application at `j` is applied, from
/// the first of them on.
pub open spec fn window_start(s: Seq<TokenView>, j: int) -> int {
    if j == 0 {
        0
    } else {
        j - 1
    }
}

/// How many tokens are joined.
pub open spec fn window_width(s: Seq<TokenView>, j: int) -> int {
    if j == 0 || is_postfix(s[j]) {
        2
    } else {
        3
    }
}

/// The tree of the application at `j` and of the operands beside it.
pub open spec fn window_tree(s: Seq<TokenView>, j: int) -> TreeView {
    if j == 0 {
        led(s[0], operand_tree(s[1]))
    } else if is_postfix(s[j]) {
        unary_node(node_value(s[j]), operand_tree(s[j - 1]))
    } else {
        binary_node(node_value(s[j]), operand_tree(s[j - 1]), operand_tree(s[j + 1]))
    }
}

/// The phrase in which one tree stands for the application at `j` and the
/// operands beside it.
pub open spec fn joined(s: Seq<TokenView>, j: int) -> Seq<TokenView> {
    replace(s, window_start(s, j), window_width(s, j), window_tree(s, j))
}

/// The priorities of the applications up to `j` rise strictly from each to
/// the next, and none of those before `j` is a function that stands after
/// its operand.
pub open spec fn rising(s: Seq<TokenView>, j: int) -> bool {
    &&& forall|i: int, k: int|
        0 <= i < k <= j && is_application(#[trigger] s[i]) && is_application(#[trigger] s[k])
            ==> priority_of(s[i]) < priority_of(s[k])
    &&& forall|i: int| 0 <= i < j ==> !is_postfix(#[trigger] s[i])
}

/// The application after the one at `j` and its right operand, if there is
/// one, is not of a higher priority. Nothing is asked after a function that
/// takes the operand before it.
pub open spec fn settled(s: Seq<TokenView>, j: int) -> bool {
    is_postfix(s[j]) || !deferred(s, j + 1, priority_of(s[j]))
}

/// The application at `j` can be applied now.
pub open spec fn ready(s: Seq<TokenView>, j: int) -> bool {
    &&& 0 <= j < s.len()
    &&& is_application(s[j])
    &&& rising(s, j)
    &&& settled(s, j)
}

/// The place of the application that a reduction from `at` on applies.
pub open spec fn joint(s: Seq<TokenView>, at: int) -> int
    decreases s.len() - at,
{
    if at < 0 || at + 1 >= s.len() {
        at
    } else if is_application(s[at]) {
        if deferred(s, at + 1, priority_of(s[at])) {
            joint(s, at + 1)
        } else {
            at
        }
    } else if is_postfix(s[at + 1]) {
        at + 1
    } else if deferred(s, at + 2, priority_of(s[at + 1])) {
        joint(s, at + 2)
    } else {
        at + 1
    }
}

/// The place of the first application from `at` on: `at` itself where a
/// leader stands there, and else the place after the operand at `at`.
pub open spec fn next_application(s: Seq<TokenView>, at: int) -> int {
    if is_application(s[at]) {
        at
    } else {
        at + 1
    }
}

/// Where the priorities rise up to the application at `j`, and the next
/// application, after the operand at `j + 1`, is of a higher priority, they
/// rise up to that application.
proof fn lemma_rising_on(s: Seq<TokenView>, j: int)
    requires
        0 <= j,
        j + 2 < s.len(),
        is_application(s[j]),
        !is_postfix(s[j]),
        is_operand(s[j + 1]),
        is_application(s[j + 2]),
        rising(s, j),
        priority_of(s[j]) < priority_of(s[j + 2]),
    ensures
        rising(s, j + 2),
{
    assert forall|i: int, k: int|
        0 <= i < k <= j + 2 && is_application(#[trigger] s[i]) && is_application(
            #[trigger] s[k],
        ) implies priority_of(s[i]) < priority_of(s[k]) by {
        if k == j + 2 && i < j {
            assert(priority_of(s[i]) < priority_of(s[j]));
        }
    }
}

/// A reduction in a phrase applies the first application whose successor is
/// not of a higher priority, or that is a function after its operand.
pub proof fn lemma_step_in_phrase(s: Seq<TokenView>, at: int)
    requires
        is_phrase(s),
        0 <= at,
        at + 1 < s.len(),
        at == 0 || is_operand(s[at]),
        rising(s, next_application(s, at)),
    ensures
        step(s, at) == Ok::<Seq<TokenView>, ParseErrorView>(joined(s, joint(s, at))),
        ready(s, joint(s, at)),
        at <= joint(s, at),
    decreases s.len() - at,
{
    assert(follows(s, at + 1));
    if at + 2 < s.len() {
        assert(follows(s, at + 2));
    }
    if at + 3 < s.len() {
        assert(follows(s, at + 3));
    }
    if is_application(s[at]) {
        let p = priority_of(s[at]);
        if s[at] is Operator {
            assert(step(s, at) == from_operator(s, at));
        } else {
            assert(step(s, at) == from_function(s, at));
        }
        if deferred(s, at + 1, p) {
            lemma_rising_on(s, at);
            lemma_step_in_phrase(s, at + 1);
        }
    } else {
        assert(step(s, at) == from_operand(s, at));
        if !is_postfix(s[at + 1]) {
            let p = priority_of(s[at + 1]);
            if deferred(s, at + 2, p) {
                lemma_rising_on(s, at + 1);
                lemma_step_in_phrase(s, at + 2);
            }
        }
    }
}

/// The first place from `i` on of an application that can be applied last
/// and that all to the right of it outrank is at or before any such place.
proof fn lemma_first_outranked(s: Seq<TokenView>, i: int, k: int)
    requires
        0 <= i <= k < s.len(),
        is_candidate(s, k),
        outranked(s, k),
    ensures
        i <= first_outranked(s, i) <= k,
        is_candidate(s, first_outranked(s, i)),
        outranked(s, first_outranked(s, i)),
        forall|x: int|
            i <= x < first_outranked(s, i) ==> !(#[trigger] is_candidate(s, x) && outranked(s, x)),
    decreases k - i,
{
    if !(is_candidate(s, i) && outranked(s, i)) {
        lemma_first_outranked(s, i + 1, k);
    }
}

/// A phrase of two tokens or more has an application that is applied last.
pub proof fn lemma_last_applied(s: Seq<TokenView>)
    requires
        is_phrase(s),
        s.len() >= 2,
    ensures
        is_last_applied(s, last_applied(s)),
{
    let end = s.len() - 1;
    assert(follows(s, end));
    if is_application(s[end]) {
        lemma_first_outranked(s, 0, end);
    } else {
        if end >= 2 {
            assert(follows(s, end - 1));
        }
        assert(is_candidate(s, end - 1));
        lemma_first_outranked(s, 0, end - 1);
    }
}

/// There is one such place only.
pub proof fn lemma_last_applied_is_one(s: Seq<TokenView>, m: int)
    requires
        is_last_applied(s, m),
    ensures
        m == last_applied(s),
{
    lemma_first_outranked(s, 0, m);
    let n = last_applied(s);
    if n < m {
        assert(is_candidate(s, n) && outranked(s, n));
    }
}

/// From `from` on, no application before the one applied last is of a lower
/// priority than it.
proof fn lemma_none_lower_before(s: Seq<TokenView>, m: int, from: int)
    requires
        is_last_applied(s, m),
        0 <= from <= m,
        forall|i: int| 0 <= i < s.len() ==> !is_postfix(#[trigger] s[i]),
    ensures
        forall|i: int|
            from <= i < m && is_application(#[trigger] s[i]) ==> priority_of(s[m]) <= priority_of(
                s[i],
            ),
    decreases m - from,
{
    if from < m {
        lemma_none_lower_before(s, m, from + 1);
        if is_application(s[from]) && priority_of(s[from]) < priority_of(s[m]) {
            assert(is_candidate(s, from));
            assert(outranked(s, from));
        }
    }
}

/// Where no function stands after its operand, the application that is
/// applied last is of the lowest priority, and of several of that priority
/// the rightmost: operators of one priority are applied from the left.
pub proof fn lemma_last_applied_is_lowest(s: Seq<TokenView>)
    requires
        is_phrase(s),
        s.len() >= 2,
        forall|i: int| 0 <= i < s.len() ==> !is_postfix(#[trigger] s[i]),
    ensures
        forall|i: int|
            0 <= i < s.len() && is_application(#[trigger] s[i]) ==> priority_of(
                s[last_applied(s)],
            ) <= priority_of(s[i]),
        forall|i: int|
            last_applied(s) < i < s.len() && is_application(#[trigger] s[i]) ==> priority_of(
                s[last_applied(s)],
            ) < priority_of(s[i]),
{
    lemma_last_applied(s);
    lemma_none_lower_before(s, last_applied(s), 0);
}

/// What a tree in the place of some tokens leaves of the others.
pub proof fn lemma_replace_maps(s: Seq<TokenView>, at: int, width: int, tree: TreeView)
    requires
        0 <= at,
        1 <= width,
        at + width <= s.len(),
    ensures
        replace(s, at, width, tree).len() == s.len() - width + 1,
        forall|i: int| 0 <= i < at ==> #[trigger] replace(s, at, width, tree)[i] == s[i],
        replace(s, at, width, tree)[at] == TokenView::ParsedTree(tree),
        forall|i: int|
            at < i < s.len() - width + 1 ==> #[trigger] replace(s, at, width, tree)[i] == s[i
                + width - 1],
{
}

/// The tokens beside an application that can be applied are operands.
proof fn lemma_window(s: Seq<TokenView>, j: int)
    requires
        is_phrase(s),
        ready(s, j),
    ensures
        0 <= window_start(s, j),
        window_start(s, j) + window_width(s, j) <= s.len(),
        j == 0 ==> s.len() >= 2 && is_operand(s[1]) && is_leader(s[0]),
        j >= 1 ==> is_operand(s[j - 1]),
        j >= 1 && !is_postfix(s[j]) ==> j + 1 < s.len() && is_operand(s[j + 1]) && s[j] is Operator,
        j + 2 < s.len() && !is_postfix(s[j]) ==> is_application(s[j + 2]),
{
    if j >= 1 {
        assert(follows(s, j));
        if j >= 2 {
            assert(!is_postfix(s[j - 1]));
        }
    }
    if j + 2 < s.len() {
        assert(follows(s, j + 2));
        assert(follows(s, j + 1));
    }
}

/// What is left of a phrase after an application is applied is a phrase.
proof fn lemma_joined_is_phrase(s: Seq<TokenView>, j: int)
    requires
        is_phrase(s),
        ready(s, j),
    ensures
        is_phrase(joined(s, j)),
        joined(s, j).len() == s.len() - window_width(s, j) + 1,
{
    let start = window_start(s, j);
    let width = window_width(s, j);
    let next = joined(s, j);
    lemma_window(s, j);
    lemma_replace_maps(s, start, width, window_tree(s, j));
    if start >= 1 {
        assert(follows(s, start));
    }
    assert forall|i: int| 1 <= i < next.len() implies #[trigger] follows(next, i) by {
        if i < start {
            assert(follows(s, i));
            assert(next[i] == s[i]);
            assert(next[i - 1] == s[i - 1]);
            if i + 1 < start {
                assert(next[i + 1] == s[i + 1]);
            }
        } else if i == start {
            assert(next[i - 1] == s[i - 1]);
        } else {
            assert(follows(s, i + width - 1));
            assert(next[i] == s[i + width - 1]);
            if i - 1 > start {
                assert(next[i - 1] == s[i + width - 2]);
            }
            if i + 1 < next.len() {
                assert(next[i + 1] == s[i + width]);
            }
        }
    }
    if start >= 1 {
        assert(next[0] == s[0]);
        if start >= 2 {
            assert(next[1] == s[1]);
        }
    }
}

/// A part of a phrase from its start up to an application is a phrase.
proof fn lemma_left_part(s: Seq<TokenView>, m: int)
    requires
        is_phrase(s),
        1 <= m < s.len(),
        is_application(s[m]),
    ensures
        is_phrase(s.subrange(0, m)),
{
    let part = s.subrange(0, m);
    assert(follows(s, m));
    assert forall|i: int| 1 <= i < part.len() implies #[trigger] follows(part, i) by {
        assert(follows(s, i));
        if i + 1 == m && s[i] is Operator {
            assert(is_operand(s[i]) || is_postfix(s[i]));
        }
    }
    if !is_operand(s[0]) {
        assert(m >= 2);
    }
}

/// A part of a phrase from an operand on, after an operator or the leader,
/// is a phrase.
proof fn lemma_right_part(s: Seq<TokenView>, from: int)
    requires
        is_phrase(s),
        1 <= from < s.len(),
        is_operand(s[from]),
    ensures
        is_phrase(s.subrange(from, s.len() as int)),
{
    let part = s.subrange(from, s.len() as int);
    assert forall|i: int| 1 <= i < part.len() implies #[trigger] follows(part, i) by {
        assert(follows(s, from + i));
        assert(part[i] == s[from + i]);
        assert(part[i - 1] == s[from + i - 1]);
        if i + 1 < part.len() {
            assert(part[i + 1] == s[from + i + 1]);
        }
    }
}

/// The place of the first application of a phrase.
pub open spec fn first_application(s: Seq<TokenView>) -> int {
    if is_application(s[0]) {
        0
    } else {
        1
    }
}

/// Where the application that is applied last stands at or before one that
/// can be applied now, it is the first application of the phrase; and where
/// it is the very one that can be applied now, the phrase holds no more than
/// that application and its operands.
proof fn lemma_last_is_first(s: Seq<TokenView>, j: int, m: int)
    requires
        is_phrase(s),
        s.len() >= 2,
        ready(s, j),
        is_last_applied(s, m),
        m <= j,
    ensures
        m == first_application(s),
        m == j ==> s.len() == window_width(s, j),
{
    let a = first_application(s);
    assert(follows(s, 1));
    assert(is_application(s[a]));
    lemma_window(s, j);
    if a < m {
        assert(!is_postfix(s[a]));
        assert(is_candidate(s, a));
        assert forall|k: int| a < k < s.len() && is_application(#[trigger] s[k]) implies priority_of(
            s[a],
        ) < priority_of(s[k]) by {
            if k > j {
                assert(priority_of(s[m]) < priority_of(s[k]));
                assert(priority_of(s[a]) < priority_of(s[m]));
            }
        }
        assert(is_candidate(s, a) && outranked(s, a));
    }
    if m == j && !is_postfix(s[j]) && j + 2 < s.len() {
        assert(follows(s, j + 2));
        assert(priority_of(s[j]) < priority_of(s[j + 2]));
        assert(deferred(s, j + 1, priority_of(s[j])));
    }
}

/// The place in the joined phrase of a token of the phrase that stands
/// outside the tokens that are joined.
pub open spec fn moved(s: Seq<TokenView>, j: int, i: int) -> int {
    if i < window_start(s, j) {
        i
    } else {
        i - window_width(s, j) + 1
    }
}

/// The application that is applied last, where it is not the one that is
/// applied now, is still the one applied last after that one is applied.
proof fn lemma_last_applied_stays(s: Seq<TokenView>, j: int, m: int)
    requires
        is_phrase(s),
        s.len() >= 2,
        ready(s, j),
        is_last_applied(s, m),
        m < window_start(s, j) || m >= window_start(s, j) + window_width(s, j),
    ensures
        is_last_applied(joined(s, j), moved(s, j, m)),
{
    let start = window_start(s, j);
    let width = window_width(s, j);
    let next = joined(s, j);
    let n = moved(s, j, m);
    lemma_window(s, j);
    lemma_replace_maps(s, start, width, window_tree(s, j));
    assert(next[n] == s[m]);
    if m < start {
        assert(!is_postfix(s[m]));
    }
    assert(is_candidate(next, n));
    assert forall|k: int| n < k < next.len() && is_application(#[trigger] next[k]) implies priority_of(
        next[n],
    ) < priority_of(next[k]) by {
        if k < start {
            assert(next[k] == s[k]);
        } else if k > start {
            assert(next[k] == s[k + width - 1]);
            assert(is_application(s[k + width - 1]));
        }
    }
    assert forall|x: int| 0 <= x < n implies !(#[trigger] is_candidate(next, x) && outranked(
        next,
        x,
    )) by {
        if is_candidate(next, x) && outranked(next, x) {
            let i = if x < start {
                x
            } else {
                x + width - 1
            };
            assert(x != start);
            assert(next[x] == s[i]);
            assert(i < m);
            assert(!is_postfix(s[i]));
            assert(is_candidate(s, i));
            assert forall|k: int| i < k < s.len() && is_application(#[trigger] s[k]) implies priority_of(
                s[i],
            ) < priority_of(s[k]) by {
                if k < start {
                    assert(next[k] == s[k]);
                    assert(is_application(next[k]));
                } else if k >= start + width {
                    assert(next[k - width + 1] == s[k]);
                    assert(is_application(next[k - width + 1]));
                } else {
                    assert(k == j);
                    assert(i < j);
                }
            }
            assert(is_candidate(s, i) && outranked(s, i));
        }
    }
}

/// An application that can be applied now in a phrase can be applied now in
/// the part of the phrase from an operand before it on; and to apply it
/// there gives that part of the joined phrase.
proof fn lemma_ready_in_right_part(s: Seq<TokenView>, j: int, from: int)
    requires
        is_phrase(s),
        ready(s, j),
        1 <= from < j,
    ensures
        ready(s.subrange(from, s.len() as int), j - from),
        joined(s, j).subrange(from, joined(s, j).len() as int) == joined(
            s.subrange(from, s.len() as int),
            j - from,
        ),
        joined(s, j).subrange(0, from) == s.subrange(0, from),
{
    let len = s.len() as int;
    let right = s.subrange(from, len);
    let next = joined(s, j);
    lemma_window(s, j);
    lemma_replace_maps(s, window_start(s, j), window_width(s, j), window_tree(s, j));
    assert forall|i: int, k: int|
        0 <= i < k <= j - from && is_application(#[trigger] right[i]) && is_application(
            #[trigger] right[k],
        ) implies priority_of(right[i]) < priority_of(right[k]) by {
        assert(right[i] == s[i + from]);
        assert(right[k] == s[k + from]);
    }
    assert forall|i: int| 0 <= i < j - from implies !is_postfix(#[trigger] right[i]) by {
        assert(right[i] == s[i + from]);
    }
    assert(right[j - from] == s[j]);
    assert(right[j - from - 1] == s[j - 1]);
    if j + 1 < len {
        assert(right[j - from + 1] == s[j + 1]);
    }
    if j + 2 < len {
        assert(right[j - from + 2] == s[j + 2]);
    }
    assert(next.subrange(from, next.len() as int) =~= joined(right, j - from));
    assert(next.subrange(0, from) =~= s.subrange(0, from));
}

/// An application that can be applied now in a phrase can be applied now in
/// the part of the phrase up to a later application; and to apply it there
/// gives that part of the joined phrase.
proof fn lemma_ready_in_left_part(s: Seq<TokenView>, j: int, m: int)
    requires
        is_phrase(s),
        ready(s, j),
        window_start(s, j) + window_width(s, j) <= m < s.len(),
    ensures
        ready(s.subrange(0, m), j),
        joined(s, j).subrange(0, moved(s, j, m)) == joined(s.subrange(0, m), j),
        joined(s, j).subrange(moved(s, j, m) + 1, joined(s, j).len() as int) == s.subrange(
            m + 1,
            s.len() as int,
        ),
        joined(s, j)[moved(s, j, m)] == s[m],
{
    let len = s.len() as int;
    let left = s.subrange(0, m);
    let next = joined(s, j);
    let n = moved(s, j, m);
    lemma_window(s, j);
    lemma_replace_maps(s, window_start(s, j), window_width(s, j), window_tree(s, j));
    assert forall|i: int, k: int|
        0 <= i < k <= j && is_application(#[trigger] left[i]) && is_application(
            #[trigger] left[k],
        ) implies priority_of(left[i]) < priority_of(left[k]) by {
        assert(left[i] == s[i]);
        assert(left[k] == s[k]);
    }
    assert forall|i: int| 0 <= i < j implies !is_postfix(#[trigger] left[i]) by {
        assert(left[i] == s[i]);
    }
    assert(left[j] == s[j]);
    if j >= 1 {
        assert(left[j - 1] == s[j - 1]);
    }
    if j + 1 < m {
        assert(left[j + 1] == s[j + 1]);
    }
    if j + 2 < m {
        assert(left[j + 2] == s[j + 2]);
    }
    assert(left[0] == s[0]);
    assert(next.subrange(0, n) =~= joined(left, j));
    assert(next.subrange(n + 1, next.len() as int) =~= s.subrange(m + 1, len));
}

/// A phrase that holds no more than one application and its operands has the
/// tree of that application.
proof fn lemma_usual_tree_of_window(s: Seq<TokenView>, j: int)
    requires
        is_phrase(s),
        s.len() >= 2,
        ready(s, j),
        last_applied(s) == j,
        s.len() == window_width(s, j),
    ensures
        usual_tree(s) == window_tree(s, j),
{
    let len = s.len() as int;
    lemma_window(s, j);
    if j == 0 {
        assert(s.subrange(1, len)[0] == s[1]);
    } else {
        assert(s.subrange(0, j)[0] == s[0]);
        if !is_postfix(s[j]) {
            assert(s.subrange(j + 1, len)[0] == s[j + 1]);
        }
    }
    reveal_with_fuel(usual_tree, 2);
}

/// To apply an application that can be applied now does not change the
/// usual reading, where the application that is applied last stands before
/// it.
proof fn lemma_join_in_right_part(s: Seq<TokenView>, j: int)
    requires
        is_phrase(s),
        s.len() >= 2,
        ready(s, j),
        last_applied(s) < j,
    ensures
        usual_tree(joined(s, j)) == usual_tree(s),
    decreases s.len(), 0int,
{
    let next = joined(s, j);
    let len = s.len() as int;
    lemma_joined_is_phrase(s, j);
    lemma_last_applied(s);
    let m = last_applied(s);
    lemma_last_is_first(s, j, m);
    lemma_window(s, j);
    assert(follows(s, 1));
    if 2 < len {
        assert(follows(s, 2));
    }
    lemma_last_applied_stays(s, j, m);
    lemma_last_applied_is_one(next, m);
    let from = m + 1;
    let right = s.subrange(from, len);
    lemma_right_part(s, from);
    lemma_ready_in_right_part(s, j, from);
    lemma_join_keeps_usual_tree(right, j - from);
    assert(next[m] == next.subrange(0, from)[m]);
    assert(s[m] == s.subrange(0, from)[m]);
    if m == 1 {
        assert(next.subrange(0, 1) == next.subrange(0, from).subrange(0, 1));
        assert(s.subrange(0, 1) == s.subrange(0, from).subrange(0, 1));
    }
}

/// To apply an application that can be applied now does not change the
/// usual reading, where the application that is applied last stands after
/// it.
proof fn lemma_join_in_left_part(s: Seq<TokenView>, j: int)
    requires
        is_phrase(s),
        s.len() >= 2,
        ready(s, j),
        last_applied(s) > j,
    ensures
        usual_tree(joined(s, j)) == usual_tree(s),
    decreases s.len(), 0int,
{
    let next = joined(s, j);
    lemma_joined_is_phrase(s, j);
    lemma_last_applied(s);
    let m = last_applied(s);
    lemma_window(s, j);
    assert(follows(s, m));
    lemma_last_applied_stays(s, j, m);
    let n = moved(s, j, m);
    lemma_last_applied_is_one(next, n);
    lemma_left_part(s, m);
    lemma_ready_in_left_part(s, j, m);
    lemma_join_keeps_usual_tree(s.subrange(0, m), j);
}

/// To apply an application that can be applied now does not change the
/// usual reading.
pub proof fn lemma_join_keeps_usual_tree(s: Seq<TokenView>, j: int)
    requires
        is_phrase(s),
        s.len() >= 2,
        ready(s, j),
    ensures
        usual_tree(joined(s, j)) == usual_tree(s),
    decreases s.len(), 1int,
{
    lemma_last_applied(s);
    let m = last_applied(s);
    if m == j {
        lemma_last_is_first(s, j, m);
        lemma_usual_tree_of_window(s, j);
        lemma_window(s, j);
        assert(joined(s, j) =~= seq![TokenView::ParsedTree(window_tree(s, j))]);
    } else if m < j {
        lemma_join_in_right_part(s, j);
    } else {
        lemma_join_in_left_part(s, j);
    }
}

/// A phrase has the tree of its usual reading.
pub proof fn lemma_phrase_has_usual_tree(s: Seq<TokenView>)
    requires
        is_phrase(s),
    ensures
        resolve(s) == Ok::<TreeView, ParseErrorView>(usual_tree(s)),
    decreases s.len(),
{
    if s.len() >= 2 {
        assert(rising(s, next_application(s, 0))) by {
            assert(follows(s, 1));
        }
        lemma_step_in_phrase(s, 0);
        let j = joint(s, 0);
        let next = joined(s, j);
        lemma_resolve_after_step(s, next);
        lemma_joined_is_phrase(s, j);
        lemma_join_keeps_usual_tree(s, j);
        lemma_phrase_has_usual_tree(next);
    }
}

} // verus!
