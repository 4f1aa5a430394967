//! What holds of every text that the lexer reads.

use crate::parser::{flaw, resolve};
use crate::shape::{lemma_resolve_keeps_shape, lemma_well_formed_has_no_flaw, trees_well_formed};
use crate::tokeniser::{
    classify, feed, flush, is_digit, is_letter, is_number, is_symbol, lemma_scan_error_stays,
    lex, reserved_word, scan, symbol_token, NumberView, Scan, TokenErrorView, TokenType,
    TokenView,
};
use vstd::prelude::*;

verus! {

/// A character that separates nothing and stands for nothing.
pub open spec fn is_blank(c: char) -> bool {
    c == ' ' || c == '\n'
}

/// The text without its blanks.
pub open spec fn without_blanks(s: Seq<char>) -> Seq<char> {
    s.filter(|c: char| !is_blank(c))
}

/// Blanks are ignored, within a number or a name too: a text has the tokens,
/// or the error, of the text without its blanks.
pub proof fn lemma_blanks_are_ignored(s: Seq<char>)
    ensures
        scan(s) == scan(without_blanks(s)),
        lex(s) == lex(without_blanks(s)),
    decreases s.len(),
{
    reveal(Seq::filter);
    if s.len() > 0 {
        lemma_blanks_are_ignored(s.drop_last());
        if !is_blank(s.last()) {
            let kept = without_blanks(s.drop_last());
            assert(kept.push(s.last()).drop_last() == kept);
        }
    }
}

/// A token that the lexer can give: no tree, and for a literal a number.
pub open spec fn is_plain(t: TokenView) -> bool {
    match t {
        TokenView::ParsedTree(_) => false,
        TokenView::Constant(NumberView::Literal(text)) => is_number(text),
        _ => true,
    }
}

/// All the tokens are such as the lexer can give.
pub open spec fn all_plain(s: Seq<TokenView>) -> bool {
    forall|i: int| 0 <= i < s.len() ==> is_plain(#[trigger] s[i])
}

/// A finished run adds plain tokens only.
proof fn lemma_flush_is_plain(kind: TokenType, text: Seq<char>)
    ensures
        flush(kind, text) matches Ok(added) ==> all_plain(added),
{
}

/// One more character leaves the tokens plain.
proof fn lemma_feed_is_plain(st: Scan, c: char)
    requires
        all_plain(st.tokens),
    ensures
        feed(st, c) matches Ok(next) ==> all_plain(next.tokens),
{
    lemma_flush_is_plain(st.kind, st.text);
}

/// The scan completes plain tokens only.
proof fn lemma_scan_is_plain(s: Seq<char>)
    ensures
        scan(s) matches Ok(st) ==> all_plain(st.tokens),
    decreases s.len(),
{
    if s.len() > 0 {
        lemma_scan_is_plain(s.drop_last());
        if let Ok(st) = scan(s.drop_last()) {
            lemma_feed_is_plain(st, s.last());
        }
    }
}

/// The lexer gives no tree, and no literal that is not a number.
pub proof fn lemma_lexed_tokens_are_plain(s: Seq<char>)
    ensures
        lex(s) matches Ok(tokens) ==> all_plain(tokens) && trees_well_formed(tokens),
{
    lemma_scan_is_plain(s);
    if let Ok(st) = scan(s) {
        lemma_flush_is_plain(st.kind, st.text);
    }
}

/// The tree of a text that has one has no flaw: once a text is lexed and
/// reduced, its evaluation does not fail.
pub proof fn lemma_tree_of_text_has_no_flaw(s: Seq<char>)
    ensures
        lex(s) matches Ok(tokens) ==> (resolve(tokens) matches Ok(tree) ==> flaw(tree) is None),
{
    lemma_lexed_tokens_are_plain(s);
    if let Ok(tokens) = lex(s) {
        lemma_resolve_keeps_shape(tokens);
        if let Ok(tree) = resolve(tokens) {
            lemma_well_formed_has_no_flaw(tree);
        }
    }
}

/// A character that stands for a token of its own: a parenthesis or an
/// operator character.
pub open spec fn is_delimiter(c: char) -> bool {
    c == '(' || c == ')' || is_symbol(c)
}

/// The token that a delimiter stands for.
pub open spec fn delimiter_token(c: char) -> TokenView {
    if c == '(' {
        TokenView::LParen
    } else if c == ')' {
        TokenView::RParen
    } else {
        symbol_token(c)->0
    }
}

/// The state with some tokens before its own.
pub open spec fn after_tokens(tokens: Seq<TokenView>, r: Result<Scan, TokenErrorView>) -> Result<
    Scan,
    TokenErrorView,
> {
    match r {
        Ok(st) => Ok(Scan { tokens: tokens + st.tokens, kind: st.kind, text: st.text }),
        Err(e) => Err(e),
    }
}

/// While no run is gathered, no text is held.
proof fn lemma_no_run_no_text(s: Seq<char>)
    ensures
        scan(s) matches Ok(st) ==> (st.kind == TokenType::Blank ==> st.text == Seq::<char>::empty())
            && (st.kind == TokenType::Blank || st.kind == TokenType::Letter || st.kind
            == TokenType::Num),
    decreases s.len(),
{
    if s.len() > 0 {
        lemma_no_run_no_text(s.drop_last());
    }
}

/// Two scans that are in the same state but for the tokens before them stay
/// so over the same characters.
proof fn lemma_scans_go_on(
    a: Seq<char>,
    b: Seq<char>,
    tokens: Seq<TokenView>,
    more: Seq<char>,
)
    requires
        scan(b) is Ok,
        scan(a) == after_tokens(tokens, scan(b)),
    ensures
        scan(a + more) == after_tokens(tokens, scan(b + more)),
    decreases more.len(),
{
    if more.len() == 0 {
        assert(a + more == a);
        assert(b + more == b);
    } else {
        assert((a + more).drop_last() == a + more.drop_last());
        assert((b + more).drop_last() == b + more.drop_last());
        lemma_scans_go_on(a, b, tokens, more.drop_last());
        if let Ok(st) = scan(b + more.drop_last()) {
            let shifted = Scan { tokens: tokens + st.tokens, kind: st.kind, text: st.text };
            if let Ok(added) = flush(st.kind, st.text) {
                assert((tokens + st.tokens) + added == tokens + (st.tokens + added));
                if let Some(t) = symbol_token(more.last()) {
                    assert(((tokens + st.tokens) + added).push(t) == tokens + (st.tokens
                        + added).push(t));
                }
                assert(((tokens + st.tokens) + added).push(TokenView::LParen) == tokens + (
                st.tokens + added).push(TokenView::LParen));
                assert(((tokens + st.tokens) + added).push(TokenView::RParen) == tokens + (
                st.tokens + added).push(TokenView::RParen));
            }
            assert(feed(shifted, more.last()) == after_tokens(tokens, feed(st, more.last())));
        } else {
            lemma_scan_error_stays(b + more, b.len() + more.len() - 1);
            assert((b + more).take(b.len() + more.len() - 1) == b + more.drop_last());
        }
    }
}

/// A parenthesis or an operator character parts a text: the text has the
/// tokens of what is before the character, the token of the character, and
/// the tokens of what is after it; or the error of the first part, or else
/// that of the second.
pub proof fn lemma_delimiter_parts_text(a: Seq<char>, c: char, b: Seq<char>)
    requires
        is_delimiter(c),
    ensures
        lex(a + seq![c] + b) == match lex(a) {
            Err(e) => Err::<Seq<TokenView>, TokenErrorView>(e),
            Ok(first) => match lex(b) {
                Err(e) => Err(e),
                Ok(second) => Ok(first + seq![delimiter_token(c)] + second),
            },
        },
{
    let head = a + seq![c];
    assert(head.drop_last() == a);
    assert(head.last() == c);
    match scan(a) {
        Err(e) => {
            assert((head + b).take(a.len() as int) == a);
            lemma_scan_error_stays(head + b, a.len() as int);
        },
        Ok(st) => {
            match flush(st.kind, st.text) {
                Err(e) => {
                    assert((head + b).take(head.len() as int) == head);
                    lemma_scan_error_stays(head + b, head.len() as int);
                },
                Ok(added) => {
                    let first = st.tokens + added;
                    assert(scan(head) == Ok::<Scan, TokenErrorView>(
                        Scan {
                            tokens: first.push(delimiter_token(c)),
                            kind: TokenType::Blank,
                            text: Seq::empty(),
                        },
                    ));
                    let none = Seq::<char>::empty();
                    assert(first.push(delimiter_token(c)) + Seq::<TokenView>::empty()
                        == first.push(delimiter_token(c)));
                    lemma_scans_go_on(head, none, first.push(delimiter_token(c)), b);
                    assert(none + b == b);
                    if let Ok(last) = scan(b) {
                        if let Ok(more) = flush(last.kind, last.text) {
                            assert(first.push(delimiter_token(c)) + last.tokens + more == first
                                + seq![delimiter_token(c)] + (last.tokens + more));
                        }
                    }
                },
            }
        },
    }
}

/// The scan of a run of characters of one kind gathers the run.
proof fn lemma_scan_of_run(s: Seq<char>, kind: TokenType)
    requires
        s.len() >= 1,
        kind == TokenType::Letter || kind == TokenType::Num,
        forall|i: int| 0 <= i < s.len() ==> classify(#[trigger] s[i]) == Some(kind),
    ensures
        scan(s) == Ok::<Scan, TokenErrorView>(Scan { tokens: Seq::empty(), kind, text: s }),
    decreases s.len(),
{
    let c = s.last();
    assert(classify(s[s.len() - 1]) == Some(kind));
    if s.len() == 1 {
        assert(s.drop_last().len() == 0);
        assert(Seq::<TokenView>::empty() + Seq::<TokenView>::empty() == Seq::<TokenView>::empty());
        assert(seq![c] == s);
    } else {
        assert forall|i: int| 0 <= i < s.drop_last().len() implies classify(
            #[trigger] s.drop_last()[i],
        ) == Some(kind) by {
            assert(s.drop_last()[i] == s[i]);
        }
        lemma_scan_of_run(s.drop_last(), kind);
        assert(s.drop_last().push(c) == s);
    }
}

/// A run of letters is one name: the token of a reserved word, or an
/// invalid name.
pub proof fn lemma_letters_are_a_name(s: Seq<char>)
    requires
        s.len() >= 1,
        forall|i: int| 0 <= i < s.len() ==> is_letter(#[trigger] s[i]),
    ensures
        lex(s) == match reserved_word(s) {
            Some(t) => Ok::<Seq<TokenView>, TokenErrorView>(seq![t]),
            None => Err(TokenErrorView::InvalidName(s)),
        },
{
    lemma_scan_of_run(s, TokenType::Letter);
    if let Some(t) = reserved_word(s) {
        assert(Seq::<TokenView>::empty() + seq![t] == seq![t]);
    }
}

/// A run of digits and dots is one number, or an invalid number.
pub proof fn lemma_digits_are_a_number(s: Seq<char>)
    requires
        s.len() >= 1,
        forall|i: int| 0 <= i < s.len() ==> is_digit(#[trigger] s[i]) || s[i] == '.',
    ensures
        lex(s) == if is_number(s) {
            Ok::<Seq<TokenView>, TokenErrorView>(
                seq![TokenView::Constant(NumberView::Literal(s))],
            )
        } else {
            Err(TokenErrorView::InvalidNumber(s))
        },
{
    assert forall|i: int| 0 <= i < s.len() implies classify(#[trigger] s[i]) == Some(
        TokenType::Num,
    ) by {
        assert(is_digit(s[i]) || s[i] == '.');
    }
    lemma_scan_of_run(s, TokenType::Num);
    let t = TokenView::Constant(NumberView::Literal(s));
    assert(Seq::<TokenView>::empty() + seq![t] == seq![t]);
}

/// A character of no class is an invalid token, where what stands before it
/// is scanned without an error.
pub proof fn lemma_invalid_character(s: Seq<char>, k: int)
    requires
        0 <= k < s.len(),
        classify(s[k]) is None,
        scan(s.take(k)) is Ok,
    ensures
        lex(s) == Err::<Seq<TokenView>, TokenErrorView>(TokenErrorView::InvalidToken(s[k])),
{
    assert(s.take(k + 1).drop_last() == s.take(k));
    assert(s.take(k + 1).last() == s[k]);
    lemma_scan_error_stays(s, k + 1);
}

/// A text parts where the kind of its characters changes: before a letter
/// that follows no letters, before a digit or a dot that follows none, and
/// before a parenthesis or an operator character. The text has the tokens of
/// the first part and then those of the second; or the error of the first
/// part, or else that of the second.
pub proof fn lemma_kind_change_parts_text(a: Seq<char>, b: Seq<char>)
    requires
        b.len() >= 1,
        classify(b[0]) is Some,
        classify(b[0]) != Some(TokenType::Blank),
        scan(a) matches Ok(st) ==> Some(st.kind) != classify(b[0]),
    ensures
        lex(a + b) == match lex(a) {
            Err(e) => Err::<Seq<TokenView>, TokenErrorView>(e),
            Ok(first) => match lex(b) {
                Err(e) => Err(e),
                Ok(second) => Ok(first + second),
            },
        },
{
    let c = b[0];
    let head = a + seq![c];
    let one = seq![c];
    let more = b.drop_first();
    assert(head.drop_last() == a);
    assert(head.last() == c);
    assert(one.drop_last() == Seq::<char>::empty());
    assert(one.last() == c);
    assert(head + more == a + b);
    assert(one + more == b);
    match scan(a) {
        Err(e) => {
            assert((a + b).take(a.len() as int) == a);
            lemma_scan_error_stays(a + b, a.len() as int);
        },
        Ok(st) => {
            lemma_no_run_no_text(a);
            match flush(st.kind, st.text) {
                Err(e) => {
                    assert((a + b).take(head.len() as int) == head);
                    lemma_scan_error_stays(a + b, head.len() as int);
                },
                Ok(added) => {
                    let first = st.tokens + added;
                    let none = Seq::<TokenView>::empty();
                    assert(none + none == none);
                    assert(scan(one) == feed(
                        Scan { tokens: none, kind: TokenType::Blank, text: Seq::empty() },
                        c,
                    )) by {
                        reveal_with_fuel(scan, 2);
                    }
                    assert(scan(one) is Ok);
                    let begun = scan(one)->Ok_0;
                    assert(first + begun.tokens == first + none + begun.tokens);
                    if let Some(t) = symbol_token(c) {
                        assert(first.push(t) == first + none.push(t));
                    }
                    assert(first.push(TokenView::LParen) == first + none.push(TokenView::LParen));
                    assert(first.push(TokenView::RParen) == first + none.push(TokenView::RParen));
                    assert(first + none == first);
                    assert(scan(head) == after_tokens(first, scan(one)));
                    lemma_scans_go_on(head, one, first, more);
                    if let Ok(last) = scan(b) {
                        if let Ok(end) = flush(last.kind, last.text) {
                            assert(first + last.tokens + end == first + (last.tokens + end));
                        }
                    }
                },
            }
        },
    }
}

} // verus!
