//! Expressions in which every operation stands in parentheses of its own:
//! the reducer applies each operation to the operands that stand with it,
//! whatever the priorities are.

use crate::grouping::{
    balanced, lemma_open_after_concat, lemma_parentheses_change_nothing, open_after, wrap,
};
use crate::parser::{
    binary_node, flaw, leaf, minus, node_value, resolve, unary_node, zero, ParseErrorView,
    TreeView,
};
use crate::precedence::{
    is_minus, is_postfix, is_prefix, lemma_resolve_binary, lemma_resolve_negated,
    lemma_resolve_unary,
};
use crate::shape::{lemma_well_formed_has_no_flaw, well_formed};
use crate::substitution::{lemma_group_is_its_tree, with_group, with_tree};
use crate::tokeniser::{NumberView, TokenView};
use vstd::prelude::*;

verus! {

/// An expression in which every operand is a number or stands in parentheses
/// of its own, so that no operation has to be chosen before another.
pub enum Grouped {
    /// A number.
    Value(NumberView),
    /// An operand, an operator and an operand.
    Binary(Box<Grouped>, TokenView, Box<Grouped>),
    /// A function and the operand after it.
    Prefix(TokenView, Box<Grouped>),
    /// An operand and the function after it.
    Postfix(Box<Grouped>, TokenView),
    /// A minus and the operand after it.
    Negated(TokenView, Box<Grouped>),
}

impl Grouped {
    /// Each token is of the kind that its place asks for. Nothing is asked of
    /// the priorities.
    pub open spec fn proper(self) -> bool
        decreases self,
    {
        match self {
            Grouped::Value(_) => true,
            Grouped::Binary(l, operator, r) => operator is Operator && l.proper() && r.proper(),
            Grouped::Prefix(function, x) => is_prefix(function) && x.proper(),
            Grouped::Postfix(x, function) => is_postfix(function) && x.proper(),
            Grouped::Negated(sign, x) => is_minus(sign) && x.proper(),
        }
    }

    /// The tokens of the expression as an operand: a number as it is, any
    /// other expression in parentheses.
    pub open spec fn operand(self) -> Seq<TokenView>
        decreases self, 1int,
    {
        match self {
            Grouped::Value(n) => seq![TokenView::Constant(n)],
            _ => wrap(self.tokens()),
        }
    }

    /// The tokens of the expression.
    pub open spec fn tokens(self) -> Seq<TokenView>
        decreases self, 0int,
    {
        match self {
            Grouped::Value(n) => seq![TokenView::Constant(n)],
            Grouped::Binary(l, operator, r) => l.operand() + seq![operator] + r.operand(),
            Grouped::Prefix(function, x) => seq![function] + x.operand(),
            Grouped::Postfix(x, function) => x.operand() + seq![function],
            Grouped::Negated(sign, x) => seq![sign] + x.operand(),
        }
    }

    /// The tree that applies each operation to the operands that stand with
    /// it.
    pub open spec fn tree(self) -> TreeView
        decreases self,
    {
        match self {
            Grouped::Value(n) => leaf(n),
            Grouped::Binary(l, operator, r) => binary_node(node_value(operator), l.tree(), r.tree()),
            Grouped::Prefix(function, x) => unary_node(node_value(function), x.tree()),
            Grouped::Postfix(x, function) => unary_node(node_value(function), x.tree()),
            Grouped::Negated(_, x) => binary_node(Some(minus()), leaf(zero()), x.tree()),
        }
    }

    /// The one token that the operand of the expression is reduced to.
    pub open spec fn reduced_operand(self) -> TokenView {
        match self {
            Grouped::Value(n) => TokenView::Constant(n),
            _ => TokenView::ParsedTree(self.tree()),
        }
    }
}

/// The tokens of an expression are balanced.
pub proof fn lemma_grouped_balanced(e: Grouped)
    requires
        e.proper(),
    ensures
        balanced(e.tokens()),
        balanced(e.operand()),
    decreases e,
{
    match e {
        Grouped::Value(n) => {
            reveal_with_fuel(open_after, 2);
        },
        Grouped::Binary(l, operator, r) => {
            lemma_grouped_balanced(*l);
            lemma_grouped_balanced(*r);
            assert(open_after(seq![operator], 0) == Some(0nat)) by {
                reveal_with_fuel(open_after, 2);
            }
            lemma_open_after_concat(l.operand(), seq![operator], 0);
            lemma_open_after_concat(l.operand() + seq![operator], r.operand(), 0);
        },
        Grouped::Prefix(function, x) => {
            lemma_grouped_balanced(*x);
            assert(open_after(seq![function], 0) == Some(0nat)) by {
                reveal_with_fuel(open_after, 2);
            }
            lemma_open_after_concat(seq![function], x.operand(), 0);
        },
        Grouped::Postfix(x, function) => {
            lemma_grouped_balanced(*x);
            assert(open_after(seq![function], 0) == Some(0nat)) by {
                reveal_with_fuel(open_after, 2);
            }
            lemma_open_after_concat(x.operand(), seq![function], 0);
        },
        Grouped::Negated(sign, x) => {
            lemma_grouped_balanced(*x);
            assert(open_after(seq![sign], 0) == Some(0nat)) by {
                reveal_with_fuel(open_after, 2);
            }
            lemma_open_after_concat(seq![sign], x.operand(), 0);
        },
    }
    if !(e is Value) {
        lemma_parentheses_change_nothing(e.tokens());
    }
}

/// The operand of an expression that has its tree can be read first,
/// whatever stands before it and after it.
proof fn lemma_read_operand(before: Seq<TokenView>, e: Grouped, after: Seq<TokenView>)
    requires
        e.proper(),
        resolve(e.tokens()) == Ok::<TreeView, ParseErrorView>(e.tree()),
    ensures
        resolve(before + e.operand() + after) == resolve(
            before + seq![e.reduced_operand()] + after,
        ),
{
    if !(e is Value) {
        lemma_grouped_balanced(e);
        lemma_group_is_its_tree(before, e.tokens(), after);
        assert(before + e.operand() + after == with_group(before, e.tokens(), after));
        assert(before + seq![e.reduced_operand()] + after == with_tree(before, e.tree(), after));
    }
}

/// In an expression whose operands are grouped, the reduction applies each
/// operation to the operands that stand with it, whatever the priorities of
/// the operators and functions are.
pub proof fn lemma_grouped_expression(e: Grouped)
    requires
        e.proper(),
    ensures
        resolve(e.tokens()) == Ok::<TreeView, ParseErrorView>(e.tree()),
        resolve(e.operand()) == Ok::<TreeView, ParseErrorView>(e.tree()),
    decreases e,
{
    let none = Seq::<TokenView>::empty();
    match e {
        Grouped::Value(n) => {},
        Grouped::Binary(l, operator, r) => {
            lemma_grouped_expression(*l);
            lemma_grouped_expression(*r);
            let x = l.reduced_operand();
            let y = r.reduced_operand();
            lemma_read_operand(l.operand() + seq![operator], *r, none);
            assert(l.operand() + seq![operator] + r.operand() + none == e.tokens());
            lemma_read_operand(none, *l, seq![operator, y]);
            assert(l.operand() + seq![operator] + seq![y] + none == none + l.operand() + seq![
                operator,
                y,
            ]);
            assert(none + seq![x] + seq![operator, y] == seq![x, operator, y]);
            lemma_resolve_binary(x, operator, y);
        },
        Grouped::Prefix(function, x) => {
            lemma_grouped_expression(*x);
            lemma_read_operand(seq![function], *x, none);
            assert(seq![function] + x.operand() + none == e.tokens());
            assert(seq![function] + seq![x.reduced_operand()] + none == seq![
                function,
                x.reduced_operand(),
            ]);
            lemma_resolve_unary(function, x.reduced_operand());
        },
        Grouped::Postfix(x, function) => {
            lemma_grouped_expression(*x);
            lemma_read_operand(none, *x, seq![function]);
            assert(none + x.operand() + seq![function] == e.tokens());
            assert(none + seq![x.reduced_operand()] + seq![function] == seq![
                x.reduced_operand(),
                function,
            ]);
            lemma_resolve_unary(function, x.reduced_operand());
        },
        Grouped::Negated(sign, x) => {
            lemma_grouped_expression(*x);
            lemma_read_operand(seq![sign], *x, none);
            assert(seq![sign] + x.operand() + none == e.tokens());
            assert(seq![sign] + seq![x.reduced_operand()] + none == seq![
                sign,
                x.reduced_operand(),
            ]);
            lemma_resolve_negated(sign, x.reduced_operand());
        },
    }
    if !(e is Value) {
        lemma_grouped_balanced(e);
        lemma_parentheses_change_nothing(e.tokens());
    }
}

/// The tree of such an expression is well-formed, so that its evaluation
/// does not fail.
pub proof fn lemma_grouped_tree_has_value(e: Grouped)
    requires
        e.proper(),
    ensures
        well_formed(e.tree()),
        flaw(e.tree()) is None,
    decreases e,
{
    match e {
        Grouped::Value(n) => {},
        Grouped::Binary(l, operator, r) => {
            lemma_grouped_tree_has_value(*l);
            lemma_grouped_tree_has_value(*r);
        },
        Grouped::Prefix(function, x) => {
            lemma_grouped_tree_has_value(*x);
        },
        Grouped::Postfix(x, function) => {
            lemma_grouped_tree_has_value(*x);
        },
        Grouped::Negated(sign, x) => {
            lemma_grouped_tree_has_value(*x);
            reveal_with_fuel(well_formed, 2);
        },
    }
    lemma_well_formed_has_no_flaw(e.tree());
}

} // verus!
