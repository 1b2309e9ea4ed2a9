use interp::ast::Ast;
use interp::environment::{global_env, Environment};
use interp::error::LangError;
use interp::interpreter::{evaluate, execute};
use interp::lexer::tokenize;
use interp::parser::parse;
use interp::token::Token;
use interp::types::{get_entry, RuntimeVal};

fn run(source: &str) -> Result<RuntimeVal, LangError> {
    let mut env = global_env();
    execute(&mut env, source.to_string())
}

fn number(r: &Result<RuntimeVal, LangError>) -> Option<isize> {
    match r {
        Ok(RuntimeVal::Number(n)) => Some(*n),
        _ => None,
    }
}

fn field(v: &RuntimeVal, key: &str) -> Option<RuntimeVal> {
    match v {
        RuntimeVal::Object(entries) => get_entry(entries, &key.to_string()),
        _ => None,
    }
}

#[test]
fn test() {
    let string = "let x = 10 * ( 10 /10 ) - 1;x".to_string();
    let mut env = global_env();
    let runtime_val = execute(&mut env, string).unwrap();
    assert_eq!(runtime_val, RuntimeVal::Number(9))
}

#[test]
fn object_built_from_declared_values() {
    let source = "let x = 10;\nlet y = 32;\nconst foo = 100;\nlet complex = { bar: true };\n{ x, y, foo, complex }\n";
    let r = run(source).unwrap();
    match &r {
        RuntimeVal::Object(entries) => assert_eq!(entries.len(), 4),
        _ => panic!("expected an object"),
    }
    assert!(matches!(field(&r, "x"), Some(RuntimeVal::Number(10))));
    assert!(matches!(field(&r, "y"), Some(RuntimeVal::Number(32))));
    assert!(matches!(field(&r, "foo"), Some(RuntimeVal::Number(100))));
    let complex = field(&r, "complex").unwrap();
    match &complex {
        RuntimeVal::Object(entries) => assert_eq!(entries.len(), 1),
        _ => panic!("expected an object"),
    }
    assert!(matches!(field(&complex, "bar"), Some(RuntimeVal::Bool(true))));
    let expected = RuntimeVal::Object(vec![
        ("complex".to_string(), RuntimeVal::Object(vec![("bar".to_string(), RuntimeVal::Bool(true))])),
        ("foo".to_string(), RuntimeVal::Number(100)),
        ("y".to_string(), RuntimeVal::Number(32)),
        ("x".to_string(), RuntimeVal::Number(10)),
    ]);
    assert_eq!(r, expected);
}

#[test]
fn object_equality_ignores_order() {
    let a = RuntimeVal::Object(vec![("p".to_string(), RuntimeVal::Number(1)), ("q".to_string(), RuntimeVal::Null)]);
    let b = RuntimeVal::Object(vec![("q".to_string(), RuntimeVal::Null), ("p".to_string(), RuntimeVal::Number(1))]);
    let c = RuntimeVal::Object(vec![("q".to_string(), RuntimeVal::Null), ("p".to_string(), RuntimeVal::Number(2))]);
    let d = RuntimeVal::Object(vec![("p".to_string(), RuntimeVal::Number(1))]);
    assert_eq!(a, b);
    assert_ne!(a, c);
    assert_ne!(a, d);
    assert_ne!(RuntimeVal::Null, RuntimeVal::Bool(false));
    assert_eq!(a.clone(), a);
}

#[test]
fn constant_cannot_be_reassigned() {
    let mut env = global_env();
    assert_eq!(number(&execute(&mut env, "const k = 5; k".to_string())), Some(5));
    let r = execute(&mut env, "k = 6;".to_string());
    assert!(matches!(r, Err(LangError::ConstantReassignment(ref n)) if n == "k"));
    assert_eq!(number(&execute(&mut env, "k".to_string())), Some(5));
}

#[test]
fn declaration_without_initializer_is_null() {
    assert!(matches!(run("let a; a"), Ok(RuntimeVal::Null)));
}

#[test]
fn constant_without_initializer_fails() {
    assert!(matches!(run("const c;"), Err(LangError::ConstantWithoutValue)));
}

#[test]
fn shorthand_property_resolves_at_construction() {
    let r = run("let o = { x: 1, y }; let y = 2; o.y");
    assert!(matches!(r, Err(LangError::Undefined(ref n)) if n == "y"));
    assert_eq!(number(&run("let y = 2; let o = { x: 1, y }; o.y")), Some(2));
}

#[test]
fn nested_object_member_access() {
    let inner = Ast::ObjectLiteral {
        properties: vec![("c".to_string(), Some(Box::new(Ast::NumericLiteral(2))))],
    };
    let outer = Ast::ObjectLiteral {
        properties: vec![
            ("a".to_string(), Some(Box::new(Ast::NumericLiteral(1)))),
            ("b".to_string(), Some(Box::new(inner))),
        ],
    };
    let b = Ast::MemberExpr {
        object: Box::new(outer),
        property: Box::new(Ast::Identifier("b".to_string())),
        computed: false,
    };
    let c = Ast::MemberExpr { object: Box::new(b), property: Box::new(Ast::Identifier("c".to_string())), computed: false };
    let mut env = global_env();
    assert!(matches!(evaluate(&mut env, c), Ok(RuntimeVal::Number(2))));
}

#[test]
fn nested_object_through_variable() {
    assert_eq!(number(&run("let o = { a: 1, b: { c: 2 } }; o.b.c")), Some(2));
}

#[test]
fn multiplication_binds_tighter_than_addition() {
    for (a, b, c, d) in [(2isize, 3isize, 4isize, 5isize), (1, -1, 7, 3), (10, 2, 0, 9)] {
        let source = format!("let b = {}; let d = {}; {} + b * {} - d", b.abs(), d, a, c);
        let expected = (a + b.abs() * c) - d;
        assert_eq!(number(&run(&source)), Some(expected));
    }
    assert_eq!(number(&run("2 + 3 * 4 - 5")), Some(9));
    assert_eq!(number(&run("2 * (3 + 4)")), Some(14));
    assert_eq!(number(&run("20 - 4 - 3")), Some(13));
    assert_eq!(number(&run("2 * 3 % 4")), Some(2));
}

#[test]
fn division_truncates() {
    assert_eq!(number(&run("7 / 2")), Some(3));
    assert_eq!(number(&run("7 % 3")), Some(1));
    assert_eq!(number(&run("let z = 0; z - 7 / 2")), Some(-3));
}

#[test]
fn execution_is_repeatable() {
    let source = "let x = 4; const y = x * 3; { x, y }";
    let first = run(source).unwrap();
    let second = run(source).unwrap();
    assert!(matches!(field(&first, "x"), Some(RuntimeVal::Number(4))));
    assert!(matches!(field(&second, "x"), Some(RuntimeVal::Number(4))));
    assert!(matches!(field(&first, "y"), Some(RuntimeVal::Number(12))));
    assert!(matches!(field(&second, "y"), Some(RuntimeVal::Number(12))));
}

#[test]
fn tokens_end_with_one_end_marker() {
    let tokens = tokenize("let x = 1;".to_string()).unwrap();
    assert_eq!(
        tokens,
        vec![
            Token::Let,
            Token::Identifier("x".to_string()),
            Token::Equals,
            Token::Number(1),
            Token::Semicolon,
            Token::Eof
        ]
    );
    let tokens = tokenize("".to_string()).unwrap();
    assert_eq!(tokens, vec![Token::Eof]);
    let tokens = tokenize("{ a: [ b ] }.(c)+-*/%,\t\r\n const".to_string()).unwrap();
    assert_eq!(tokens.iter().filter(|t| **t == Token::Eof).count(), 1);
    assert_eq!(tokens.last(), Some(&Token::Eof));
    assert_eq!(tokens.len(), 19);
}

#[test]
fn nested_scope_leaves_parent_alone() {
    let mut child = Environment::new(Some(global_env()));
    let name = "x".to_string();
    assert!(child.declare_variable(&name, RuntimeVal::Number(1), false).is_ok());
    assert!(matches!(child.lookup_variable(&name), Some(RuntimeVal::Number(1))));
    let parent = child.into_parent().unwrap();
    assert!(parent.lookup_variable(&name).is_none());
    assert!(matches!(parent.lookup_variable(&"true".to_string()), Some(RuntimeVal::Bool(true))));
}

#[test]
fn nested_scope_assigns_to_defining_scope() {
    let mut outer = global_env();
    let name = "v".to_string();
    assert!(outer.declare_variable(&name, RuntimeVal::Number(1), false).is_ok());
    let mut child = Environment::new(Some(outer));
    assert!(matches!(child.assign_variable(&name, RuntimeVal::Number(2)), Ok(RuntimeVal::Number(2))));
    let outer = child.into_parent().unwrap();
    assert!(matches!(outer.lookup_variable(&name), Some(RuntimeVal::Number(2))));
}

#[test]
fn declared_constant_refuses_assignment() {
    let mut env = global_env();
    let name = "c".to_string();
    assert!(env.declare_variable(&name, RuntimeVal::Number(3), true).is_ok());
    assert!(matches!(env.assign_variable(&name, RuntimeVal::Number(4)), Err(LangError::ConstantReassignment(_))));
    assert!(matches!(env.assign_variable(&"null".to_string(), RuntimeVal::Number(4)), Err(LangError::ConstantReassignment(_))));
}

#[test]
fn global_scope_predeclares_constants() {
    assert!(matches!(run("null"), Ok(RuntimeVal::Null)));
    assert!(matches!(run("true"), Ok(RuntimeVal::Bool(true))));
    assert!(matches!(run("false"), Ok(RuntimeVal::Bool(false))));
    assert!(matches!(run("let true = 1;"), Err(LangError::AlreadyDeclared(_))));
}

#[test]
fn empty_program_is_null() {
    assert!(matches!(run(""), Ok(RuntimeVal::Null)));
    assert!(matches!(run("  \n\t"), Ok(RuntimeVal::Null)));
}

#[test]
fn calls_evaluate_to_null() {
    assert!(matches!(run("let f = 1; f(1, 2)(3)"), Ok(RuntimeVal::Null)));
    let program = parse(tokenize("f()".to_string()).unwrap()).unwrap();
    match program {
        Ast::Program { statements } => assert!(matches!(statements[0], Ast::CallExpr { .. })),
        _ => panic!("expected a program"),
    }
}

#[test]
fn assignment_updates_and_returns_value() {
    assert_eq!(number(&run("let a = 1; a = a + 4;")), Some(5));
    assert_eq!(number(&run("let a = 1; a = 7; a")), Some(7));
}

#[test]
fn non_numeric_operands_give_null() {
    assert!(matches!(run("true + 1"), Ok(RuntimeVal::Null)));
    assert!(matches!(run("let o = { a: 1 }; o * 2"), Ok(RuntimeVal::Null)));
}

#[test]
fn later_duplicate_key_replaces_earlier() {
    let r = run("{ a: 1, a: 2 }").unwrap();
    match &r {
        RuntimeVal::Object(entries) => assert_eq!(entries.len(), 1),
        _ => panic!("expected an object"),
    }
    assert!(matches!(field(&r, "a"), Some(RuntimeVal::Number(2))));
}

#[test]
fn lexical_errors() {
    assert!(matches!(run("let \u{e9} = 1;"), Err(LangError::NonAscii)));
    assert!(matches!(run("let x = 1 # 2;"), Err(LangError::InvalidCharacter('#'))));
    assert!(matches!(run("let x_y = 1;"), Err(LangError::InvalidCharacter('_'))));
    assert!(matches!(run("99999999999999999999999"), Err(LangError::NumberTooLarge)));
}

#[test]
fn syntax_errors() {
    assert!(matches!(run(")"), Err(LangError::UnexpectedToken(_))));
    assert!(matches!(run("let = 1;"), Err(LangError::UnexpectedToken(_))));
    assert!(matches!(run("let x = 1"), Err(LangError::UnexpectedToken(_))));
    assert!(matches!(run("{ a 1 }"), Err(LangError::UnexpectedToken(_))));
    assert!(matches!(run("let o = { a: 1 }; o[a"), Err(LangError::UnexpectedToken(_))));
    assert!(matches!(run("let o = { a: 1 }; o.5"), Err(LangError::ExpectedIdentifierAfterDot)));
    assert!(matches!(parse(vec![Token::Number(1)]), Err(LangError::UnexpectedToken(_))));
}

#[test]
fn runtime_errors() {
    assert!(matches!(run("let a = 1; let a = 2;"), Err(LangError::AlreadyDeclared(ref n)) if n == "a"));
    assert!(matches!(run("zz"), Err(LangError::Undefined(ref n)) if n == "zz"));
    assert!(matches!(run("zz = 1;"), Err(LangError::Undefined(_))));
    assert!(matches!(run("1 = 2;"), Err(LangError::InvalidAssignee)));
    assert!(matches!(run("let n = 1; n.x"), Err(LangError::NotAnObject)));
    assert!(matches!(run("let o = { x: 1 }; o[1]"), Err(LangError::NotAKey)));
    assert!(matches!(run("let o = { x: 1 }; o.z"), Err(LangError::MissingKey(ref n)) if n == "z"));
    assert!(matches!(run("1 / 0"), Err(LangError::DivisionByZero)));
    assert!(matches!(run("1 % 0"), Err(LangError::DivisionByZero)));
    let big = format!("{} + 1", isize::MAX);
    assert!(matches!(run(&big), Err(LangError::Overflow)));
    let small = format!("0 - {} - 2", isize::MAX);
    assert!(matches!(run(&small), Err(LangError::Overflow)));
}

#[test]
fn failed_input_leaves_environment_usable() {
    let mut env = global_env();
    assert!(execute(&mut env, "let a = 1;".to_string()).is_ok());
    assert!(execute(&mut env, "a = ;".to_string()).is_err());
    assert_eq!(number(&execute(&mut env, "a".to_string())), Some(1));
}

#[test]
fn lexer_reads_longest_runs() {
    let tokens = tokenize("007 lets constx const let".to_string()).unwrap();
    assert_eq!(
        tokens,
        vec![
            Token::Number(7),
            Token::Identifier("lets".to_string()),
            Token::Identifier("constx".to_string()),
            Token::Const,
            Token::Let,
            Token::Eof
        ]
    );
    let tokens = tokenize("ab12cd".to_string()).unwrap();
    assert_eq!(
        tokens,
        vec![
            Token::Identifier("ab".to_string()),
            Token::Number(12),
            Token::Identifier("cd".to_string()),
            Token::Eof
        ]
    );
}

#[test]
fn parser_builds_left_deep_sums_over_products() {
    let program = parse(tokenize("1 + 2 * 3 - 4".to_string()).unwrap()).unwrap();
    let statements = match program {
        Ast::Program { statements } => statements,
        _ => panic!("expected a program"),
    };
    assert_eq!(statements.len(), 1);
    match &statements[0] {
        Ast::BinaryExpr { left, right, operator: '-' } => {
            assert!(matches!(**right, Ast::NumericLiteral(4)));
            match &**left {
                Ast::BinaryExpr { left: a, right: bc, operator: '+' } => {
                    assert!(matches!(**a, Ast::NumericLiteral(1)));
                    assert!(matches!(
                        &**bc,
                        Ast::BinaryExpr { operator: '*', .. }
                    ));
                }
                _ => panic!("expected a sum"),
            }
        }
        _ => panic!("expected a difference"),
    }
}

#[test]
fn parser_reads_declarations() {
    let program = parse(tokenize("let a; const b = 2;".to_string()).unwrap()).unwrap();
    match program {
        Ast::Program { statements } => {
            assert_eq!(statements.len(), 2);
            match &statements[0] {
                Ast::VariableDeclaration { constant: false, identifier, value } => {
                    assert_eq!(identifier, "a");
                    assert!(matches!(&**value, Ast::Identifier(n) if n == "null"));
                }
                _ => panic!("expected a declaration"),
            }
            assert!(matches!(&statements[1], Ast::VariableDeclaration { constant: true, .. }));
        }
        _ => panic!("expected a program"),
    }
}

#[test]
fn unexpected_token_is_named() {
    assert!(matches!(run(")"), Err(LangError::UnexpectedToken(Some(Token::CloseParen)))));
    assert!(matches!(run("let x = 1"), Err(LangError::UnexpectedToken(Some(Token::Eof)))));
    assert!(matches!(run("{ a 1 }"), Err(LangError::UnexpectedToken(Some(Token::Number(1))))));
    assert!(matches!(parse(vec![Token::Number(1)]), Err(LangError::UnexpectedToken(None))));
}

#[test]
fn assignments_inside_expressions_take_effect() {
    let mut env = global_env();
    assert_eq!(number(&execute(&mut env, "let x = 0; (x = 5;) + 1".to_string())), Some(6));
    assert_eq!(number(&execute(&mut env, "x".to_string())), Some(5));
    assert!(matches!(execute(&mut env, "(x = 1;).y".to_string()), Err(LangError::NotAnObject)));
    assert_eq!(number(&execute(&mut env, "x".to_string())), Some(1));
    assert!(matches!(execute(&mut env, "let o = { k: x = 7; }; o.k".to_string()), Ok(RuntimeVal::Number(7))));
    assert_eq!(number(&execute(&mut env, "x".to_string())), Some(7));
}
