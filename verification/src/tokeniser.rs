//! The lexer: from the text of an expression to a sequence of typed tokens.

use crate::parser::{TreeNode, TreeView};
use crate::lexing::{all_plain, lemma_lexed_tokens_are_plain};
use crate::shape::trees_well_formed;
use crate::text::{chars_of, spells, string_of};
use vstd::prelude::*;

verus! {

/// The binary operations that an infix operator can stand for.
#[derive(Clone, Copy, Debug, PartialEq, Eq, Structural)]
pub enum BinaryOp {
    Add,
    Sub,
    Mul,
    Div,
    /// Euclidean remainder.
    Rem,
    Pow,
    /// Combinations: `n nCr r`.
    Ncr,
    /// Permutations: `n nPr r`.
    Npr,
}

/// The unary operations that a function can stand for.
#[derive(Clone, Copy, Debug, PartialEq, Eq, Structural)]
pub enum UnaryOp {
    Sin,
    Cos,
    Tan,
    Asin,
    Acos,
    Atan,
    Sinh,
    Cosh,
    Tanh,
    Asinh,
    Acosh,
    Atanh,
    Sqrt,
    Cbrt,
    Exp,
    Ln,
    /// Logarithm to base ten.
    Log,
    Abs,
    Floor,
    Ceil,
    Round,
    Factorial,
}

/// A number as it stands in an expression: the digits of a literal, or one of
/// the named constants. What value it has is up to the arithmetic that the
/// tree is evaluated with.
#[derive(Debug, PartialEq)]
pub enum Number {
    /// A literal, by its text: digits with at most one dot.
    Literal(String),
    Pi,
    E,
}

/// A number as a mathematical value: a literal by its characters.
pub enum NumberView {
    Literal(Seq<char>),
    Pi,
    E,
}

impl View for Number {
    type V = NumberView;

    open spec fn view(&self) -> NumberView {
        match self {
            Number::Literal(s) => NumberView::Literal(s@),
            Number::Pi => NumberView::Pi,
            Number::E => NumberView::E,
        }
    }
}

impl Clone for Number {
    fn clone(&self) -> (r: Self)
        ensures
            r == *self,
    {
        match self {
            Number::Literal(s) => Number::Literal(s.clone()),
            Number::Pi => Number::Pi,
            Number::E => Number::E,
        }
    }
}

/// What a node of an expression tree can hold.
#[derive(Debug, PartialEq)]
#[allow(inconsistent_fields)]
pub enum NodeValue {
    Operator { fun: BinaryOp, priority: i32, name: String },
    Function { fun: UnaryOp, priority: i32, after: bool, name: String },
    Constant(Number),
}

/// What a node holds as a mathematical value: names by their characters.
#[allow(inconsistent_fields)]
pub enum ValueView {
    Operator { fun: BinaryOp, priority: i32, name: Seq<char> },
    Function { fun: UnaryOp, priority: i32, after: bool, name: Seq<char> },
    Constant(NumberView),
}

impl View for NodeValue {
    type V = ValueView;

    open spec fn view(&self) -> ValueView {
        match self {
            NodeValue::Operator { fun, priority, name } => ValueView::Operator {
                fun: *fun,
                priority: *priority,
                name: name@,
            },
            NodeValue::Function { fun, priority, after, name } => ValueView::Function {
                fun: *fun,
                priority: *priority,
                after: *after,
                name: name@,
            },
            NodeValue::Constant(n) => ValueView::Constant(n@),
        }
    }
}

impl Clone for NodeValue {
    fn clone(&self) -> (r: Self)
        ensures
            r == *self,
    {
        match self {
            NodeValue::Operator { fun, priority, name } => NodeValue::Operator {
                fun: *fun,
                priority: *priority,
                name: name.clone(),
            },
            NodeValue::Function { fun, priority, after, name } => NodeValue::Function {
                fun: *fun,
                priority: *priority,
                after: *after,
                name: name.clone(),
            },
            NodeValue::Constant(n) => NodeValue::Constant(n.clone()),
        }
    }
}

/// One lexical unit, or an expression that the reducer has already built.
#[derive(Debug, PartialEq)]
#[allow(inconsistent_fields)]
pub enum Token {
    LParen,
    RParen,
    /// A binary infix operator, such as `+` or `nCr`.
    Operator { fun: BinaryOp, priority: i32, name: String },
    /// A unary function: before its operand (`sqrt 9`), or after it (`5!`).
    Function { fun: UnaryOp, priority: i32, after: bool, name: String },
    Constant(Number),
    ParsedTree(Box<TreeNode>),
}

/// A token as a mathematical value: names and literals by their characters,
/// a tree by its view.
#[allow(inconsistent_fields)]
pub enum TokenView {
    LParen,
    RParen,
    Operator { fun: BinaryOp, priority: i32, name: Seq<char> },
    Function { fun: UnaryOp, priority: i32, after: bool, name: Seq<char> },
    Constant(NumberView),
    ParsedTree(TreeView),
}

impl View for Token {
    type V = TokenView;

    open spec fn view(&self) -> TokenView {
        match self {
            Token::LParen => TokenView::LParen,
            Token::RParen => TokenView::RParen,
            Token::Operator { fun, priority, name } => TokenView::Operator {
                fun: *fun,
                priority: *priority,
                name: name@,
            },
            Token::Function { fun, priority, after, name } => TokenView::Function {
                fun: *fun,
                priority: *priority,
                after: *after,
                name: name@,
            },
            Token::Constant(n) => TokenView::Constant(n@),
            Token::ParsedTree(t) => TokenView::ParsedTree(t.model()),
        }
    }
}

impl Clone for Token {
    fn clone(&self) -> (r: Self)
        ensures
            r == *self,
    {
        match self {
            Token::LParen => Token::LParen,
            Token::RParen => Token::RParen,
            Token::Operator { fun, priority, name } => Token::Operator {
                fun: *fun,
                priority: *priority,
                name: name.clone(),
            },
            Token::Function { fun, priority, after, name } => Token::Function {
                fun: *fun,
                priority: *priority,
                after: *after,
                name: name.clone(),
            },
            Token::Constant(n) => Token::Constant(n.clone()),
            Token::ParsedTree(t) => Token::ParsedTree(Box::new((**t).clone())),
        }
    }
}

/// The views of a sequence of tokens, one by one.
pub open spec fn token_views(v: Seq<Token>) -> Seq<TokenView> {
    v.map_values(|t: Token| t@)
}

/// Why a text is no sequence of tokens.
#[derive(Debug, PartialEq)]
pub enum TokenError {
    /// A character that belongs to no token.
    InvalidToken(char),
    /// A run of letters that is no reserved word.
    InvalidName(String),
    /// A run of digits and dots that is no number.
    InvalidNumber(String),
}

/// A lexing error as a mathematical value: texts by their characters.
pub enum TokenErrorView {
    InvalidToken(char),
    InvalidName(Seq<char>),
    InvalidNumber(Seq<char>),
}

impl View for TokenError {
    type V = TokenErrorView;

    open spec fn view(&self) -> TokenErrorView {
        match self {
            TokenError::InvalidToken(c) => TokenErrorView::InvalidToken(*c),
            TokenError::InvalidName(s) => TokenErrorView::InvalidName(s@),
            TokenError::InvalidNumber(s) => TokenErrorView::InvalidNumber(s@),
        }
    }
}

/// The class of a character, and the kind of the run that is being gathered.
#[derive(Clone, Copy, Debug, PartialEq, Eq, Structural)]
pub enum TokenType {
    Letter,
    Num,
    LParen,
    RParen,
    Op,
    /// A blank; as the kind of a run: no run is being gathered.
    Blank,
}

/// A letter of the Latin alphabet, small or capital.
pub open spec fn is_letter(c: char) -> bool {
    ('a' <= c && c <= 'z') || ('A' <= c && c <= 'Z')
}

/// A decimal digit.
pub open spec fn is_digit(c: char) -> bool {
    '0' <= c && c <= '9'
}

/// A character that stands for an operator, or for the factorial.
pub open spec fn is_symbol(c: char) -> bool {
    c == '+' || c == '-' || c == '*' || c == '/' || c == '%' || c == '^' || c == '!'
}

/// The class of each character that an expression may hold.
pub open spec fn classify(c: char) -> Option<TokenType> {
    if is_letter(c) {
        Some(TokenType::Letter)
    } else if is_digit(c) || c == '.' {
        Some(TokenType::Num)
    } else if is_symbol(c) {
        Some(TokenType::Op)
    } else if c == '(' {
        Some(TokenType::LParen)
    } else if c == ')' {
        Some(TokenType::RParen)
    } else if c == ' ' || c == '\n' {
        Some(TokenType::Blank)
    } else {
        None
    }
}

/// Classifies one character; a character of no class is an invalid token.
pub fn get_token_type(c: char) -> (r: Result<TokenType, TokenError>)
    ensures
        r == match classify(c) {
            Some(t) => Ok::<TokenType, TokenError>(t),
            None => Err(TokenError::InvalidToken(c)),
        },
{
    if (c >= 'a' && c <= 'z') || (c >= 'A' && c <= 'Z') {
        return Ok(TokenType::Letter);
    }
    if (c >= '0' && c <= '9') || c == '.' {
        return Ok(TokenType::Num);
    }
    if c == '+' || c == '-' || c == '*' || c == '/' || c == '%' || c == '^' || c == '!' {
        return Ok(TokenType::Op);
    }
    match c {
        '(' => Ok(TokenType::LParen),
        ')' => Ok(TokenType::RParen),
        ' ' | '\n' => Ok(TokenType::Blank),
        _ => Err(TokenError::InvalidToken(c)),
    }
}

/// An operator token.
pub open spec fn infix_operator(fun: BinaryOp, priority: i32, name: Seq<char>) -> TokenView {
    TokenView::Operator { fun, priority, name }
}

/// The token of a function that stands before its operand.
pub open spec fn prefix_function(fun: UnaryOp, name: Seq<char>) -> TokenView {
    TokenView::Function { fun, priority: 3, after: false, name }
}

/// The token of a function that stands after its operand.
pub open spec fn postfix_function(fun: UnaryOp, name: Seq<char>) -> TokenView {
    TokenView::Function { fun, priority: 3, after: true, name }
}

/// The token that each operator character stands for, with its priority:
/// 1 for `+ -`, 2 for `* / %`, 3 for `!`, 4 for `^`.
pub open spec fn symbol_token(c: char) -> Option<TokenView> {
    if c == '+' {
        Some(infix_operator(BinaryOp::Add, 1, seq![c]))
    } else if c == '-' {
        Some(infix_operator(BinaryOp::Sub, 1, seq![c]))
    } else if c == '*' {
        Some(infix_operator(BinaryOp::Mul, 2, seq![c]))
    } else if c == '/' {
        Some(infix_operator(BinaryOp::Div, 2, seq![c]))
    } else if c == '^' {
        Some(infix_operator(BinaryOp::Pow, 4, seq![c]))
    } else if c == '%' {
        Some(infix_operator(BinaryOp::Rem, 2, seq![c]))
    } else if c == '!' {
        Some(postfix_function(UnaryOp::Factorial, seq![c]))
    } else {
        None
    }
}

/// The token that each reserved word stands for: the functions, which stand
/// before their operand with priority 3; the operators `nCr` and `nPr` with
/// priority 5; the constants `pi` and `e`.
pub open spec fn reserved_word(s: Seq<char>) -> Option<TokenView> {
    if s == "sin"@ {
        Some(prefix_function(UnaryOp::Sin, s))
    } else if s == "cos"@ {
        Some(prefix_function(UnaryOp::Cos, s))
    } else if s == "tan"@ {
        Some(prefix_function(UnaryOp::Tan, s))
    } else if s == "asin"@ {
        Some(prefix_function(UnaryOp::Asin, s))
    } else if s == "acos"@ {
        Some(prefix_function(UnaryOp::Acos, s))
    } else if s == "atan"@ {
        Some(prefix_function(UnaryOp::Atan, s))
    } else if s == "sinh"@ {
        Some(prefix_function(UnaryOp::Sinh, s))
    } else if s == "cosh"@ {
        Some(prefix_function(UnaryOp::Cosh, s))
    } else if s == "tanh"@ {
        Some(prefix_function(UnaryOp::Tanh, s))
    } else if s == "asinh"@ {
        Some(prefix_function(UnaryOp::Asinh, s))
    } else if s == "acosh"@ {
        Some(prefix_function(UnaryOp::Acosh, s))
    } else if s == "atanh"@ {
        Some(prefix_function(UnaryOp::Atanh, s))
    } else if s == "sqrt"@ {
        Some(prefix_function(UnaryOp::Sqrt, s))
    } else if s == "cbrt"@ {
        Some(prefix_function(UnaryOp::Cbrt, s))
    } else if s == "exp"@ {
        Some(prefix_function(UnaryOp::Exp, s))
    } else if s == "ln"@ {
        Some(prefix_function(UnaryOp::Ln, s))
    } else if s == "log"@ {
        Some(prefix_function(UnaryOp::Log, s))
    } else if s == "abs"@ {
        Some(prefix_function(UnaryOp::Abs, s))
    } else if s == "floor"@ {
        Some(prefix_function(UnaryOp::Floor, s))
    } else if s == "ceil"@ {
        Some(prefix_function(UnaryOp::Ceil, s))
    } else if s == "round"@ {
        Some(prefix_function(UnaryOp::Round, s))
    } else if s == "nCr"@ {
        Some(infix_operator(BinaryOp::Ncr, 5, s))
    } else if s == "nPr"@ {
        Some(infix_operator(BinaryOp::Npr, 5, s))
    } else if s == "pi"@ {
        Some(TokenView::Constant(NumberView::Pi))
    } else if s == "e"@ {
        Some(TokenView::Constant(NumberView::E))
    } else {
        None
    }
}

/// An operator token.
fn operator(fun: BinaryOp, priority: i32, name: String) -> (t: Token)
    ensures
        t@ == infix_operator(fun, priority, name@),
{
    Token::Operator { fun, priority, name }
}

/// A function token, of the priority that all functions have.
fn function(fun: UnaryOp, after: bool, name: &str) -> (t: Token)
    ensures
        t@ == (TokenView::Function { fun, priority: 3, after, name: name@ }),
{
    Token::Function { fun, priority: 3, after, name: name.to_owned() }
}

/// Looks a run of letters up among the reserved words.
pub fn get_thing_str(s: &str) -> (r: Result<Token, TokenError>)
    ensures
        match reserved_word(s@) {
            Some(t) => r matches Ok(token) && token@ == t,
            None => r matches Err(e) && e@ == TokenErrorView::InvalidName(s@),
        },
{
    let run = chars_of(s);
    if spells(&run, "sin") {
        Ok(function(UnaryOp::Sin, false, s))
    } else if spells(&run, "cos") {
        Ok(function(UnaryOp::Cos, false, s))
    } else if spells(&run, "tan") {
        Ok(function(UnaryOp::Tan, false, s))
    } else if spells(&run, "asin") {
        Ok(function(UnaryOp::Asin, false, s))
    } else if spells(&run, "acos") {
        Ok(function(UnaryOp::Acos, false, s))
    } else if spells(&run, "atan") {
        Ok(function(UnaryOp::Atan, false, s))
    } else if spells(&run, "sinh") {
        Ok(function(UnaryOp::Sinh, false, s))
    } else if spells(&run, "cosh") {
        Ok(function(UnaryOp::Cosh, false, s))
    } else if spells(&run, "tanh") {
        Ok(function(UnaryOp::Tanh, false, s))
    } else if spells(&run, "asinh") {
        Ok(function(UnaryOp::Asinh, false, s))
    } else if spells(&run, "acosh") {
        Ok(function(UnaryOp::Acosh, false, s))
    } else if spells(&run, "atanh") {
        Ok(function(UnaryOp::Atanh, false, s))
    } else if spells(&run, "sqrt") {
        Ok(function(UnaryOp::Sqrt, false, s))
    } else if spells(&run, "cbrt") {
        Ok(function(UnaryOp::Cbrt, false, s))
    } else if spells(&run, "exp") {
        Ok(function(UnaryOp::Exp, false, s))
    } else if spells(&run, "ln") {
        Ok(function(UnaryOp::Ln, false, s))
    } else if spells(&run, "log") {
        Ok(function(UnaryOp::Log, false, s))
    } else if spells(&run, "abs") {
        Ok(function(UnaryOp::Abs, false, s))
    } else if spells(&run, "floor") {
        Ok(function(UnaryOp::Floor, false, s))
    } else if spells(&run, "ceil") {
        Ok(function(UnaryOp::Ceil, false, s))
    } else if spells(&run, "round") {
        Ok(function(UnaryOp::Round, false, s))
    } else if spells(&run, "nCr") {
        Ok(operator(BinaryOp::Ncr, 5, s.to_owned()))
    } else if spells(&run, "nPr") {
        Ok(operator(BinaryOp::Npr, 5, s.to_owned()))
    } else if spells(&run, "pi") {
        Ok(Token::Constant(Number::Pi))
    } else if spells(&run, "e") {
        Ok(Token::Constant(Number::E))
    } else {
        Err(TokenError::InvalidName(s.to_owned()))
    }
}

/// The token of an operator character.
pub fn get_thing_char(c: char) -> (r: Result<Token, TokenError>)
    ensures
        match symbol_token(c) {
            Some(t) => r matches Ok(token) && token@ == t,
            None => r == Err::<Token, TokenError>(TokenError::InvalidToken(c)),
        },
{
    match c {
        '+' => Ok(operator(BinaryOp::Add, 1, string_of(c))),
        '-' => Ok(operator(BinaryOp::Sub, 1, string_of(c))),
        '*' => Ok(operator(BinaryOp::Mul, 2, string_of(c))),
        '/' => Ok(operator(BinaryOp::Div, 2, string_of(c))),
        '^' => Ok(operator(BinaryOp::Pow, 4, string_of(c))),
        '%' => Ok(operator(BinaryOp::Rem, 2, string_of(c))),
        '!' => Ok(Token::Function {
            fun: UnaryOp::Factorial,
            priority: 3,
            after: true,
            name: string_of(c),
        }),
        _ => Err(TokenError::InvalidToken(c)),
    }
}

/// Whether a run is a number: digits with at most one dot among them, before
/// them or after them, and at least one digit.
pub open spec fn is_number(s: Seq<char>) -> bool {
    &&& forall|i: int| 0 <= i < s.len() ==> is_digit(#[trigger] s[i]) || s[i] == '.'
    &&& exists|i: int| 0 <= i < s.len() && is_digit(#[trigger] s[i])
    &&& forall|i: int, j: int|
        0 <= i < j < s.len() ==> !(#[trigger] s[i] == '.' && #[trigger] s[j] == '.')
}

/// Whether a run is a number.
fn check_number(s: &str) -> (b: bool)
    ensures
        b == is_number(s@),
{
    let mut plain = true;
    let mut digit = false;
    let mut dot = false;
    let mut twice = false;
    for c in it: s.chars()
        invariant
            it.seq() == s@,
            plain == (forall|i: int| 0 <= i < it.index() ==> is_digit(#[trigger] s@[i]) || s@[i] == '.'),
            digit == (exists|i: int| 0 <= i < it.index() && is_digit(#[trigger] s@[i])),
            dot == (exists|i: int| 0 <= i < it.index() && #[trigger] s@[i] == '.'),
            twice == (exists|i: int, j: int|
                0 <= i < j < it.index() && #[trigger] s@[i] == '.' && #[trigger] s@[j] == '.'),
    {
        let ghost k = it.index() as int;
        if c >= '0' && c <= '9' {
            digit = true;
        } else if c == '.' {
            if dot {
                twice = true;
            }
            dot = true;
        } else {
            plain = false;
        }
        proof {
            assert(s@[k] == c);
            if twice {
                let i = choose|i: int| 0 <= i < k && #[trigger] s@[i] == '.';
                if c == '.' && i < k {
                    assert(s@[i] == '.' && s@[k] == '.');
                }
            }
        }
    }
    plain && digit && !twice
}

/// What a finished run adds to the tokens: a run of digits and dots a number,
/// a run of letters the token of a reserved word, and no run nothing.
pub open spec fn flush(kind: TokenType, text: Seq<char>) -> Result<Seq<TokenView>, TokenErrorView> {
    match kind {
        TokenType::Num => if is_number(text) {
            Ok(seq![TokenView::Constant(NumberView::Literal(text))])
        } else {
            Err(TokenErrorView::InvalidNumber(text))
        },
        TokenType::Letter => match reserved_word(text) {
            Some(t) => Ok(seq![t]),
            None => Err(TokenErrorView::InvalidName(text)),
        },
        _ => Ok(Seq::empty()),
    }
}

/// Whether a text is a run of the given kind: for a run of letters, letters
/// only; for a run of digits and dots, digits and dots only. Nothing is asked
/// where the kind is no kind of run.
pub open spec fn is_run(kind: TokenType, text: Seq<char>) -> bool {
    kind == TokenType::Letter || kind == TokenType::Num ==> forall|i: int|
        0 <= i < text.len() ==> classify(#[trigger] text[i]) == Some(kind)
}

/// Ends the run that was gathered and appends its token, if there was a run.
/// The text is the run that the scan gathered: characters of its kind only.
pub fn push(current_type: TokenType, tokens: &mut Vec<Token>, current_str: &String) -> (r: Result<
    (),
    TokenError,
>)
    requires
        is_run(current_type, current_str@),
    ensures
        match flush(current_type, current_str@) {
            Ok(added) => r is Ok && token_views(final(tokens)@) == token_views(old(tokens)@)
                + added,
            Err(e) => r matches Err(x) && x@ == e && final(tokens)@ == old(tokens)@,
        },
{
    match current_type {
        TokenType::Num => {
            if check_number(current_str.as_str()) {
                tokens.push(Token::Constant(Number::Literal(current_str.clone())));
                assert(token_views(tokens@) == token_views(old(tokens)@) + seq![
                    TokenView::Constant(NumberView::Literal(current_str@)),
                ]);
            } else {
                return Err(TokenError::InvalidNumber(current_str.clone()));
            }
        },
        TokenType::Letter => {
            match get_thing_str(current_str.as_str()) {
                Ok(token) => {
                    tokens.push(token);
                    assert(token_views(tokens@) == token_views(old(tokens)@) + seq![token@]);
                },
                Err(e) => {
                    return Err(e);
                },
            }
        },
        _ => {
            assert(token_views(tokens@) == token_views(old(tokens)@) + Seq::empty());
        },
    }
    Ok(())
}

/// The state of the scan after some characters: the tokens that are complete,
/// and the run that is being gathered, which is empty unless `kind` is
/// `Letter` or `Num`.
pub struct Scan {
    pub tokens: Seq<TokenView>,
    pub kind: TokenType,
    pub text: Seq<char>,
}

/// The state after one more character. A blank changes nothing. A letter, a
/// digit or a dot lengthens a run of its own kind, and else ends the run and
/// begins a new one. A parenthesis or an operator character ends the run and
/// stands for a token of its own.
pub open spec fn feed(st: Scan, c: char) -> Result<Scan, TokenErrorView> {
    match classify(c) {
        None => Err(TokenErrorView::InvalidToken(c)),
        Some(TokenType::Blank) => Ok(st),
        Some(TokenType::Letter) | Some(TokenType::Num) => if Some(st.kind) == classify(c) {
            Ok(Scan { tokens: st.tokens, kind: st.kind, text: st.text.push(c) })
        } else {
            match flush(st.kind, st.text) {
                Err(e) => Err(e),
                Ok(added) => Ok(
                    Scan { tokens: st.tokens + added, kind: classify(c)->0, text: seq![c] },
                ),
            }
        },
        Some(class) => match flush(st.kind, st.text) {
            Err(e) => Err(e),
            Ok(added) => {
                let own = match class {
                    TokenType::LParen => Some(TokenView::LParen),
                    TokenType::RParen => Some(TokenView::RParen),
                    _ => symbol_token(c),
                };
                match own {
                    None => Err(TokenErrorView::InvalidToken(c)),
                    Some(t) => Ok(
                        Scan {
                            tokens: (st.tokens + added).push(t),
                            kind: TokenType::Blank,
                            text: Seq::empty(),
                        },
                    ),
                }
            },
        },
    }
}

/// The state after all the characters of `s`, from the left, or the first
/// error on the way.
pub open spec fn scan(s: Seq<char>) -> Result<Scan, TokenErrorView>
    decreases s.len(),
{
    if s.len() == 0 {
        Ok(Scan { tokens: Seq::empty(), kind: TokenType::Blank, text: Seq::empty() })
    } else {
        match scan(s.drop_last()) {
            Err(e) => Err(e),
            Ok(st) => feed(st, s.last()),
        }
    }
}

/// The tokens of a text: those that the scan completes, and that of the run
/// which the end of the text ends.
pub open spec fn lex(s: Seq<char>) -> Result<Seq<TokenView>, TokenErrorView> {
    match scan(s) {
        Err(e) => Err(e),
        Ok(st) => match flush(st.kind, st.text) {
            Err(e) => Err(e),
            Ok(added) => Ok(st.tokens + added),
        },
    }
}

/// An error stays: once the scan of a part of the text from its start has
/// failed, the scan of the whole text fails in the same way.
pub proof fn lemma_scan_error_stays(s: Seq<char>, k: int)
    requires
        0 <= k <= s.len(),
        scan(s.take(k)) is Err,
    ensures
        scan(s) == scan(s.take(k)),
    decreases s.len() - k,
{
    if k < s.len() {
        assert(s.take(k + 1).drop_last() == s.take(k));
        lemma_scan_error_stays(s, k + 1);
    } else {
        assert(s.take(k) == s);
    }
}

/// What `tokenise` returns, by the views of the tokens and of the error.
pub open spec fn lexed(r: Result<Vec<Token>, TokenError>) -> Result<Seq<TokenView>, TokenErrorView> {
    match r {
        Ok(tokens) => Ok(token_views(tokens@)),
        Err(e) => Err(e@),
    }
}

/// Turns the text of an expression into its tokens, or fails at the first
/// character or run that is none. Among the tokens there is no tree, and
/// each literal is a number.
pub fn tokenise(input: String) -> (r: Result<Vec<Token>, TokenError>)
    ensures
        lexed(r) == lex(input@),
        r matches Ok(tokens) ==> all_plain(token_views(tokens@)) && trees_well_formed(
            token_views(tokens@),
        ),
{
    proof {
        lemma_lexed_tokens_are_plain(input@);
    }
    let mut tokens: Vec<Token> = Vec::new();
    let mut current_type = TokenType::Blank;
    let mut current_str = String::new();

    assert(input@.take(0).len() == 0);
    assert(token_views(tokens@) == Seq::<TokenView>::empty());
    for c in it: input.as_str().chars()
        invariant
            it.seq() == input@,
            scan(input@.take(it.index() as int)) == Ok::<Scan, TokenErrorView>(
                Scan {
                    tokens: token_views(tokens@),
                    kind: current_type,
                    text: if current_type == TokenType::Blank {
                        Seq::empty()
                    } else {
                        current_str@
                    },
                },
            ),
            current_type == TokenType::Blank || current_type == TokenType::Letter || current_type
                == TokenType::Num,
            is_run(current_type, current_str@),
    {
        let ghost k = it.index() as int;
        let ghost before = scan(input@.take(k))->Ok_0;
        proof {
            assert(input@.take(k + 1).drop_last() == input@.take(k));
            assert(input@.take(k + 1).last() == c);
            assert(scan(input@.take(k + 1)) == feed(before, c));
            if feed(before, c) is Err {
                lemma_scan_error_stays(input@, k + 1);
            }
        }
        let t = match get_token_type(c) {
            Ok(t) => t,
            Err(e) => {
                return Err(e);
            },
        };
        match t {
            TokenType::Letter | TokenType::Num => {
                if current_type == t {
                    current_str.push(c);
                } else {
                    match push(current_type, &mut tokens, &current_str) {
                        Ok(()) => {},
                        Err(e) => {
                            return Err(e);
                        },
                    }
                    current_type = t;
                    current_str = string_of(c);
                }
            },
            TokenType::LParen => {
                match push(current_type, &mut tokens, &current_str) {
                    Ok(()) => {},
                    Err(e) => {
                        return Err(e);
                    },
                }
                current_type = TokenType::Blank;
                tokens.push(Token::LParen);
                assert(token_views(tokens@) == (before.tokens + flush(
                    before.kind,
                    before.text,
                )->Ok_0).push(TokenView::LParen));
            },
            TokenType::RParen => {
                match push(current_type, &mut tokens, &current_str) {
                    Ok(()) => {},
                    Err(e) => {
                        return Err(e);
                    },
                }
                current_type = TokenType::Blank;
                tokens.push(Token::RParen);
                assert(token_views(tokens@) == (before.tokens + flush(
                    before.kind,
                    before.text,
                )->Ok_0).push(TokenView::RParen));
            },
            TokenType::Op => {
                match push(current_type, &mut tokens, &current_str) {
                    Ok(()) => {},
                    Err(e) => {
                        return Err(e);
                    },
                }
                current_type = TokenType::Blank;
                match get_thing_char(c) {
                    Ok(token) => {
                        tokens.push(token);
                        assert(token_views(tokens@) == (before.tokens + flush(
                            before.kind,
                            before.text,
                        )->Ok_0).push(token@));
                    },
                    Err(e) => {
                        return Err(e);
                    },
                }
            },
            TokenType::Blank => {},
        }
    }

    assert(input@.take(input@.len() as int) == input@);
    match push(current_type, &mut tokens, &current_str) {
        Ok(()) => Ok(tokens),
        Err(e) => Err(e),
    }
}

} // verus!
