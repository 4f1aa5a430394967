use calculator::parser::{parse, ParseError};
use calculator::tokeniser::{tokenise, BinaryOp, Number, TokenError, UnaryOp};

#[derive(Debug, PartialEq)]
enum Failure {
    Lexing(TokenError),
    Parsing(ParseError),
}

fn factorial(n: f64) -> f64 {
    if n == 0.0 {
        return 1.0;
    }
    n * factorial(n - 1.0)
}

fn number(n: Number) -> f64 {
    match n {
        Number::Literal(text) => text.parse().unwrap(),
        Number::Pi => std::f64::consts::PI,
        Number::E => std::f64::consts::E,
    }
}

fn unary(fun: UnaryOp, x: f64) -> f64 {
    match fun {
        UnaryOp::Sin => x.sin(),
        UnaryOp::Cos => x.cos(),
        UnaryOp::Tan => x.tan(),
        UnaryOp::Asin => x.asin(),
        UnaryOp::Acos => x.acos(),
        UnaryOp::Atan => x.atan(),
        UnaryOp::Sinh => x.sinh(),
        UnaryOp::Cosh => x.cosh(),
        UnaryOp::Tanh => x.tanh(),
        UnaryOp::Asinh => x.asinh(),
        UnaryOp::Acosh => x.acosh(),
        UnaryOp::Atanh => x.atanh(),
        UnaryOp::Sqrt => x.sqrt(),
        UnaryOp::Cbrt => x.cbrt(),
        UnaryOp::Exp => x.exp(),
        UnaryOp::Ln => x.ln(),
        UnaryOp::Log => x.log10(),
        UnaryOp::Abs => x.abs(),
        UnaryOp::Floor => x.floor(),
        UnaryOp::Ceil => x.ceil(),
        UnaryOp::Round => x.round(),
        UnaryOp::Factorial => factorial(x),
    }
}

fn binary(fun: BinaryOp, x: f64, y: f64) -> f64 {
    match fun {
        BinaryOp::Add => x + y,
        BinaryOp::Sub => x - y,
        BinaryOp::Mul => x * y,
        BinaryOp::Div => x / y,
        BinaryOp::Rem => x.rem_euclid(y),
        BinaryOp::Pow => x.powf(y),
        BinaryOp::Ncr => factorial(x) / (factorial(y) * factorial(x - y)),
        BinaryOp::Npr => factorial(x) / factorial(x - y),
    }
}

fn evaluate(text: &str) -> Result<f64, Failure> {
    let tokens = tokenise(text.to_string()).map_err(Failure::Lexing)?;
    let tree = parse(&tokens).map_err(Failure::Parsing)?;
    tree.eval(&number, &unary, &binary).map_err(Failure::Parsing)
}

#[test]
fn multiplication_binds_tighter_than_addition() {
    assert_eq!(evaluate("2+3*4"), Ok(14.0));
}

#[test]
fn parentheses_override_priority() {
    assert_eq!(evaluate("(2+3)*4"), Ok(20.0));
}

#[test]
fn power_binds_tighter_than_multiplication() {
    assert_eq!(evaluate("2*3^2"), Ok(18.0));
}

#[test]
fn leading_minus_subtracts_from_zero() {
    assert_eq!(evaluate("-3+5"), Ok(2.0));
}

#[test]
fn two_operators_in_a_row_are_refused() {
    assert_eq!(
        evaluate("5--3"),
        Err(Failure::Parsing(ParseError::UnexpectedOperator("-".to_string())))
    );
}

#[test]
fn factorial_follows_its_operand() {
    assert_eq!(evaluate("5!"), Ok(120.0));
    assert_eq!(evaluate("3!+1"), Ok(7.0));
}

#[test]
fn function_before_a_looser_operator() {
    assert_eq!(evaluate("sqrt(9)+1"), Ok(4.0));
}

#[test]
fn function_before_a_tighter_operator() {
    assert_eq!(evaluate("sqrt(9)^2"), Ok(9.0));
}

#[test]
fn nested_parentheses_keep_the_constant() {
    assert_eq!(evaluate("((((pi))))"), Ok(std::f64::consts::PI));
}

#[test]
fn an_unclosed_parenthesis_is_an_error() {
    assert_eq!(evaluate("(2+3"), Err(Failure::Parsing(ParseError::UnmatchedLParen)));
}

#[test]
fn a_stray_closing_parenthesis_is_an_error() {
    assert_eq!(evaluate("2+3)"), Err(Failure::Parsing(ParseError::UnexpectedRParen)));
}

#[test]
fn two_dots_make_no_number() {
    assert_eq!(
        evaluate("3.4.5"),
        Err(Failure::Lexing(TokenError::InvalidNumber("3.4.5".to_string())))
    );
}

#[test]
fn the_same_text_gives_the_same_result() {
    let first = evaluate("2+3*(sqrt(16))-4!");
    let second = evaluate("2+3*(sqrt(16))-4!");
    assert_eq!(first, second);
    assert_eq!(first, Ok(-10.0));
    assert_eq!(evaluate("2+*"), evaluate("2+*"));
    assert_eq!(evaluate("2+#"), evaluate("2+#"));
}

fn close(text: &str, expected: f64) -> bool {
    match evaluate(text) {
        Ok(v) => (v - expected).abs() < 1e-12,
        Err(_) => false,
    }
}

#[test]
fn the_four_operations() {
    assert_eq!(evaluate("7+2"), Ok(9.0));
    assert_eq!(evaluate("7-2"), Ok(5.0));
    assert_eq!(evaluate("7*2"), Ok(14.0));
    assert_eq!(evaluate("7/2"), Ok(3.5));
}

#[test]
fn remainder_and_power() {
    assert_eq!(evaluate("7%3"), Ok(1.0));
    assert_eq!(evaluate("(0-7)%3"), Ok(2.0));
    assert_eq!(evaluate("-7%3"), Ok(-1.0));
    assert_eq!(evaluate("2^10"), Ok(1024.0));
    assert_eq!(evaluate("2^3^2"), Ok(64.0));
}

#[test]
fn combinations_and_permutations() {
    assert_eq!(evaluate("5 nCr 2"), Ok(10.0));
    assert_eq!(evaluate("5 nPr 2"), Ok(20.0));
    assert_eq!(evaluate("2*5 nCr 2"), Ok(20.0));
    assert_eq!(evaluate("0!"), Ok(1.0));
}

#[test]
fn functions_of_one_operand() {
    assert_eq!(evaluate("sqrt(16)"), Ok(4.0));
    assert_eq!(evaluate("abs(-5)"), Ok(5.0));
    assert_eq!(evaluate("floor(2.7)"), Ok(2.0));
    assert_eq!(evaluate("ceil(2.2)"), Ok(3.0));
    assert_eq!(evaluate("round(2.5)"), Ok(3.0));
    assert_eq!(evaluate("sin(0)"), Ok(0.0));
    assert_eq!(evaluate("cos(0)"), Ok(1.0));
    assert_eq!(evaluate("exp(0)"), Ok(1.0));
    assert!(close("ln(e)", 1.0));
    assert!(close("log(1000)", 3.0));
    assert!(close("cbrt(27)", 3.0));
    assert!(close("tan(atan(1))", 1.0));
    assert!(close("asin(sin(0.5))", 0.5));
    assert!(close("acos(cos(0.5))", 0.5));
    assert!(close("asinh(sinh(0.5))", 0.5));
    assert!(close("acosh(cosh(0.5))", 0.5));
    assert!(close("atanh(tanh(0.5))", 0.5));
}

#[test]
fn numbers_and_constants() {
    assert_eq!(evaluate("5."), Ok(5.0));
    assert_eq!(evaluate(".5+0.5"), Ok(1.0));
    assert_eq!(evaluate("1 000 000"), Ok(1000000.0));
    assert_eq!(evaluate("e"), Ok(std::f64::consts::E));
    assert_eq!(evaluate("pi"), Ok(std::f64::consts::PI));
}

#[test]
fn grouped_operands_are_applied_as_they_stand() {
    assert_eq!(evaluate("((2+3)*(4-1))"), Ok(15.0));
    assert_eq!(evaluate("(2^(3^2))"), Ok(512.0));
    assert_eq!(evaluate("((8/4)/2)"), Ok(1.0));
    assert_eq!(evaluate("(8/(4/2))"), Ok(4.0));
    assert_eq!(evaluate("(-(3!))"), Ok(-6.0));
    assert_eq!(evaluate("(sqrt((9+7)))"), Ok(4.0));
}

#[test]
fn what_was_lexed_and_reduced_has_a_value() {
    for text in ["1", "-1", "2+3*4^2!", "(1+2)*(3-4)/5%6", "-(-(-1))", "3 nPr 2!", "sqrt 4"] {
        let tokens = tokenise(text.to_string()).unwrap();
        let tree = parse(&tokens).unwrap();
        assert!(tree.eval(&number, &unary, &binary).is_ok());
    }
}

#[test]
fn each_stage_reports_its_own_errors() {
    assert_eq!(evaluate("2+#"), Err(Failure::Lexing(TokenError::InvalidToken('#'))));
    assert_eq!(evaluate("two"), Err(Failure::Lexing(TokenError::InvalidName("two".to_string()))));
    assert_eq!(evaluate(""), Err(Failure::Parsing(ParseError::InvalidNumber("No value".to_string()))));
    assert_eq!(
        evaluate("1+sqrt(4)"),
        Err(Failure::Parsing(ParseError::UnexpectedFunction("sqrt".to_string())))
    );
    assert_eq!(
        evaluate("2(3)"),
        Err(Failure::Parsing(ParseError::UnsupportedImplicitMultiplication))
    );
}
