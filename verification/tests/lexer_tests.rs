use particlescript::lexer::{lex, Lexer, LexerError, Token, TokenType};
use particlescript::types::FloatLit;

fn lex_to_types(source: &str) -> Result<Vec<TokenType>, LexerError> {
    lex(source).and_then(|tokens| Ok(tokens.into_iter().map(|token| token.token_type).collect()))
}

/// The numeric value a float literal denotes, computed the way the host
/// application would: mantissa over a power of ten, then the sign.
fn float_value(f: &FloatLit) -> f32 {
    let magnitude = (f.mantissa as f64 / 10f64.powi(f.frac_digits as i32)) as f32;
    magnitude * (if f.negative { -1.0 } else { 1.0 })
}

fn float_lit(negative: bool, mantissa: u64, frac_digits: usize) -> TokenType {
    TokenType::FloatLiteral(FloatLit {
        negative,
        mantissa,
        frac_digits,
    })
}

#[test]
fn test1() {
    let tokens = lex_to_types("sean =()yay").unwrap();

    assert_eq!(
        tokens,
        vec![
            TokenType::Identifier(String::from("sean")),
            TokenType::Equals,
            TokenType::OpeningParenthesis,
            TokenType::ClosingParenthesis,
            TokenType::Identifier(String::from("yay"))
        ]
    );
}

#[test]
fn float_literals_simple() {
    let tokens = lex_to_types("12.543.d").unwrap();
    assert_eq!(
        tokens,
        vec![
            float_lit(false, 12543, 3),
            TokenType::Dot,
            TokenType::Identifier(String::from("d"))
        ]
    );
    match &tokens[0] {
        TokenType::FloatLiteral(f) => assert_eq!(float_value(f), 12.543),
        _ => panic!("expected a float literal"),
    }
}

#[test]
fn float_literals_negative() {
    let tokens = lex_to_types("-1.25- 1.25").unwrap();
    assert_eq!(
        tokens,
        vec![
            float_lit(true, 125, 2),
            TokenType::Minus,
            float_lit(false, 125, 2)
        ]
    );
    match (&tokens[0], &tokens[2]) {
        (TokenType::FloatLiteral(a), TokenType::FloatLiteral(b)) => {
            assert_eq!(float_value(a), -1.25);
            assert_eq!(float_value(b), 1.25);
        }
        _ => panic!("expected float literals"),
    }
}

#[test]
fn int_float_differentiation() {
    let tokens = lex_to_types("1.25 1.00 -1 125").unwrap();
    assert_eq!(
        tokens,
        vec![
            float_lit(false, 125, 2),
            float_lit(false, 100, 2),
            TokenType::IntLiteral(-1),
            TokenType::IntLiteral(125)
        ]
    );
    match (&tokens[0], &tokens[1]) {
        (TokenType::FloatLiteral(a), TokenType::FloatLiteral(b)) => {
            assert_eq!(float_value(a), 1.25);
            assert_eq!(float_value(b), 1.0);
        }
        _ => panic!("expected float literals"),
    }
}

#[test]
fn some_keywords() {
    assert_eq!(
        lex_to_types("else yeet let say").unwrap(),
        vec![
            TokenType::Else,
            TokenType::Identifier(String::from("yeet")),
            TokenType::Let,
            TokenType::Identifier(String::from("say"))
        ]
    );
}

#[test]
fn token_positions() {
    let tokens = lex("ln  4\n\n )").unwrap();
    assert_eq!(
        tokens[0],
        Token {
            token_type: TokenType::Identifier("ln".to_owned()),
            line: 1,
            column: 1
        }
    );

    assert_eq!(
        tokens[1],
        Token {
            token_type: TokenType::IntLiteral(4),
            line: 1,
            column: 5
        }
    );
    assert_eq!(
        tokens[2],
        Token {
            token_type: TokenType::ClosingParenthesis,
            line: 3,
            column: 2
        }
    );
}

#[test]
fn keyword_matching_is_exact_word() {
    assert_eq!(
        lex_to_types("lets").unwrap(),
        vec![TokenType::Identifier(String::from("lets"))]
    );
    assert_eq!(
        lex_to_types("if else let while for _x a9").unwrap(),
        vec![
            TokenType::If,
            TokenType::Else,
            TokenType::Let,
            TokenType::While,
            TokenType::For,
            TokenType::Identifier(String::from("_x")),
            TokenType::Identifier(String::from("a9"))
        ]
    );
}

#[test]
fn all_punctuation() {
    assert_eq!(
        lex_to_types("(){};.=+-*/").unwrap(),
        vec![
            TokenType::OpeningParenthesis,
            TokenType::ClosingParenthesis,
            TokenType::OpeningCurlyBrace,
            TokenType::ClosingCurlyBrace,
            TokenType::Semicolon,
            TokenType::Dot,
            TokenType::Equals,
            TokenType::Plus,
            TokenType::Minus,
            TokenType::Asterisk,
            TokenType::Slash
        ]
    );
}

#[test]
fn empty_and_whitespace_only_inputs() {
    assert_eq!(lex_to_types("").unwrap(), vec![]);
    assert_eq!(lex_to_types(" \t\n  \n").unwrap(), vec![]);
}

#[test]
fn dot_needs_a_digit_to_continue_a_literal() {
    // A trailing `.` with no digit after it is a separate token, and the
    // digits before it stay an integer literal.
    assert_eq!(
        lex_to_types("12.").unwrap(),
        vec![TokenType::IntLiteral(12), TokenType::Dot]
    );
    assert_eq!(
        lex_to_types("12.x").unwrap(),
        vec![
            TokenType::IntLiteral(12),
            TokenType::Dot,
            TokenType::Identifier(String::from("x"))
        ]
    );
}

#[test]
fn sign_folding_needs_adjacency() {
    assert_eq!(
        lex_to_types("- 1").unwrap(),
        vec![TokenType::Minus, TokenType::IntLiteral(1)]
    );
    assert_eq!(
        lex_to_types("-x").unwrap(),
        vec![TokenType::Minus, TokenType::Identifier(String::from("x"))]
    );
    assert_eq!(lex_to_types("-").unwrap(), vec![TokenType::Minus]);
}

#[test]
fn oversized_literals_clamp() {
    // The magnitude of an integer literal saturates at what an i32 holds.
    assert_eq!(
        lex_to_types("99999999999").unwrap(),
        vec![TokenType::IntLiteral(2147483647)]
    );
    assert_eq!(
        lex_to_types("-99999999999").unwrap(),
        vec![TokenType::IntLiteral(-2147483647)]
    );
    // A float mantissa saturates at what a u64 holds.
    assert_eq!(
        lex_to_types("99999999999999999999999.9").unwrap(),
        vec![float_lit(false, u64::MAX, 1)]
    );
}

#[test]
fn halts_on_unrecognized_character() {
    // An unrecognized character is a terminal error: no tokens come out at
    // all, and the error reports the position of the offending character
    // together with the remainder of the input.
    let err = lex("ab # cd ef").unwrap_err();
    assert_eq!(err.line, 1);
    assert_eq!(err.column, 4);
    assert_eq!(err.message, "Unknown token '# cd ef'");

    let err = lex("#").unwrap_err();
    assert_eq!(err.line, 1);
    assert_eq!(err.column, 1);
    assert_eq!(err.message, "Unknown token '#'");
}

#[test]
fn failure_position_is_suffix_independent() {
    // Whatever follows the offending character, the failure stays at the
    // same place and nothing before it changes.
    let e1 = lex("12 #abc").unwrap_err();
    let e2 = lex("12 #xyz }{ 99").unwrap_err();
    assert_eq!((e1.line, e1.column), (e2.line, e2.column));
}

#[test]
fn lexer_produces_no_tokens_after_error() {
    let mut lexer = Lexer::new(String::from("a # b c"));
    let first = lexer.next();
    assert_eq!(
        first,
        Some(Token {
            token_type: TokenType::Identifier(String::from("a")),
            line: 1,
            column: 1
        })
    );
    assert_eq!(lexer.next(), None);
    let err = lexer.error.as_ref().expect("the error must be recorded");
    assert_eq!((err.line, err.column), (1, 3));
    // The stream is permanently exhausted.
    assert_eq!(lexer.next(), None);
    assert_eq!(lexer.next(), None);
}

#[test]
fn non_ascii_characters_are_unrecognized() {
    // Only the ASCII letter and digit ranges are classified; any other
    // code point above the control range is a terminal error.
    let err = lex("let x\u{e9} = 1").unwrap_err();
    assert_eq!((err.line, err.column), (1, 6));
}

#[test]
fn pull_based_lexer_matches_lex() {
    let source = "let a = -3.5;";
    let expected = lex(source).unwrap();
    let mut lexer = Lexer::new(String::from(source));
    let mut collected = Vec::new();
    while let Some(t) = lexer.next() {
        collected.push(t);
    }
    assert!(lexer.error.is_none());
    assert_eq!(collected, expected);
}

#[test]
fn positions_never_decrease() {
    let tokens = lex("a b\nc 1.5 -2\n\n   done").unwrap();
    let mut previous = (0usize, 0usize);
    for t in &tokens {
        assert!((t.line, t.column) >= previous);
        previous = (t.line, t.column);
    }
}
