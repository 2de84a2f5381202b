use particlescript::lexer::{lex, Token, TokenType};
use particlescript::parser::{parse, ParseError, Scope, Stmt, TokenStream};
use particlescript::types::{base_types, Type, ValueData};

fn tokens_of(types: Vec<TokenType>) -> Vec<Token> {
    types
        .into_iter()
        .map(|t| Token {
            line: 0,
            column: 0,
            token_type: t,
        })
        .collect()
}

#[test]
fn parse_variable_declaration() {
    let tokens = tokens_of(vec![
        TokenType::Let,
        TokenType::Identifier(String::from("a")),
        TokenType::Equals,
        TokenType::IntLiteral(5),
    ]);

    let mut scope = Scope {
        variables: vec![],
        types: base_types(),
        parent_scope: None,
    };
    let mut stream = TokenStream::new(tokens);
    let Ok(stmt) = parse(&mut stream, &mut scope) else {
        panic!("Parser failed")
    };

    let Some(v) = scope.variables.get(0) else {
        panic!("Variable was not declared")
    };

    match stmt {
        Stmt::Assignment { variable, value } => {
            // The statement's handle names exactly the entry that now
            // stands in the scope's variable list.
            assert_eq!(variable, 0);
            assert_eq!(v.name, "a");
            assert_eq!(v.typ.name, "int");
            match *value {
                Stmt::Literal(ref val) => {
                    assert_eq!(val.typ.name, "int");
                    assert_eq!(val.data, ValueData::Int(5));
                }
                _ => panic!("initializer is not a literal"),
            }
        }
        _ => panic!("Stmt is not an assignment"),
    }
}

#[test]
fn parse_consumes_exactly_the_statement() {
    let tokens = tokens_of(vec![
        TokenType::IntLiteral(7),
        TokenType::Semicolon,
    ]);
    let mut scope = Scope::root();
    let mut stream = TokenStream::new(tokens);
    let stmt = parse(&mut stream, &mut scope).expect("a literal statement");
    assert_eq!(stream.index, 1);
    match stmt {
        Stmt::Literal(val) => assert_eq!(val.data, ValueData::Int(7)),
        _ => panic!("expected a literal statement"),
    }
}

#[test]
fn parse_nested_declarations_declare_innermost_first() {
    // `let a = let b = 5`: the initializer is parsed before the variable
    // is declared, so `b` gets the first handle and `a` the second.
    let tokens = tokens_of(vec![
        TokenType::Let,
        TokenType::Identifier(String::from("a")),
        TokenType::Equals,
        TokenType::Let,
        TokenType::Identifier(String::from("b")),
        TokenType::Equals,
        TokenType::IntLiteral(5),
    ]);
    let mut scope = Scope::root();
    let mut stream = TokenStream::new(tokens);
    let stmt = parse(&mut stream, &mut scope).expect("a nested declaration");
    assert_eq!(scope.variables.len(), 2);
    assert_eq!(scope.variables[0].name, "b");
    assert_eq!(scope.variables[1].name, "a");
    match stmt {
        Stmt::Assignment { variable, value } => {
            assert_eq!(variable, 1);
            match *value {
                Stmt::Assignment {
                    variable: inner, ..
                } => assert_eq!(inner, 0),
                _ => panic!("inner statement is not an assignment"),
            }
        }
        _ => panic!("outer statement is not an assignment"),
    }
}

#[test]
fn parse_reports_the_unmatched_token() {
    let tokens = vec![Token {
        line: 7,
        column: 9,
        token_type: TokenType::Equals,
    }];
    let mut scope = Scope::root();
    let mut stream = TokenStream::new(tokens);
    let err = parse(&mut stream, &mut scope).unwrap_err();
    assert_eq!(err, ParseError::UnmatchedToken { line: 7, column: 9 });
    assert_eq!(stream.index, 0);
    assert_eq!(scope.variables.len(), 0);
}

#[test]
fn parse_reports_end_of_input() {
    let mut scope = Scope::root();
    let mut stream = TokenStream::new(vec![]);
    let err = parse(&mut stream, &mut scope).unwrap_err();
    assert_eq!(err, ParseError::UnexpectedEndOfInput);

    // A committed declaration whose initializer is missing fails the same
    // way, after consuming the committed tokens, and declares nothing.
    let tokens = tokens_of(vec![
        TokenType::Let,
        TokenType::Identifier(String::from("a")),
        TokenType::Equals,
    ]);
    let mut stream = TokenStream::new(tokens);
    let err = parse(&mut stream, &mut scope).unwrap_err();
    assert_eq!(err, ParseError::UnexpectedEndOfInput);
    assert_eq!(stream.index, 3);
    assert_eq!(scope.variables.len(), 0);
}

#[test]
fn parse_lexed_source_end_to_end() {
    let tokens = lex("let answer = 42").expect("lexing succeeds");
    let mut scope = Scope::root();
    let mut stream = TokenStream::new(tokens);
    let stmt = parse(&mut stream, &mut scope).expect("parsing succeeds");
    match stmt {
        Stmt::Assignment { variable, .. } => {
            assert_eq!(scope.variables[variable].name, "answer");
        }
        _ => panic!("expected an assignment"),
    }
}

#[test]
fn find_variable_not_found() {
    // No parent and no matching entry: not found.
    let scope = Scope::root();
    assert!(scope.find_variable("missing").is_none());
}

#[test]
fn find_variable_searches_outward_three_levels() {
    // A variable declared only in the outermost level is still found from
    // the innermost of three nested scopes.
    let mut outermost = Scope::root();
    let int_type = outermost.find_type("int").expect("int is built in");
    outermost.declare_variable(String::from("shared"), int_type);
    let middle = outermost.child();
    let innermost = middle.child();
    let found = innermost
        .find_variable("shared")
        .expect("found from the innermost level");
    assert_eq!(found.name, "shared");
    assert_eq!(found.typ.name, "int");
    assert!(innermost.find_variable("absent").is_none());
}

#[test]
fn find_variable_prefers_the_innermost_level() {
    let mut outer = Scope::root();
    let int_type = outer.find_type("int").expect("int is built in");
    outer.declare_variable(String::from("x"), int_type);
    let mut inner = outer.child();
    inner.declare_variable(
        String::from("x"),
        Type {
            name: String::from("float"),
        },
    );
    let found = inner.find_variable("x").expect("x is declared");
    assert_eq!(found.typ.name, "float");
}

#[test]
fn base_types_are_seeded_in_order() {
    let types = base_types();
    let names: Vec<&str> = types.iter().map(|t| t.name.as_str()).collect();
    assert_eq!(names, vec!["int", "float", "Vec2", "void"]);

    let scope = Scope::root();
    for name in ["int", "float", "Vec2", "void"] {
        assert!(scope.find_type(name).is_some());
    }
    assert!(scope.find_type("double").is_none());
}

#[test]
fn find_type_searches_outward() {
    let root = Scope::root();
    let inner = root.child().child();
    assert_eq!(inner.find_type("void").expect("built in").name, "void");
    assert!(inner.find_type("unknown").is_none());
}

#[test]
fn return_type_of_statements() {
    let mut scope = Scope::root();
    let tokens = tokens_of(vec![
        TokenType::Let,
        TokenType::Identifier(String::from("a")),
        TokenType::Equals,
        TokenType::IntLiteral(1),
    ]);
    let mut stream = TokenStream::new(tokens);
    let assignment = parse(&mut stream, &mut scope).expect("an assignment");
    assert_eq!(assignment.return_type(&scope).name, "void");

    let tokens = tokens_of(vec![TokenType::IntLiteral(3)]);
    let mut stream = TokenStream::new(tokens);
    let literal = parse(&mut stream, &mut scope).expect("a literal");
    assert_eq!(literal.return_type(&scope).name, "int");
}
