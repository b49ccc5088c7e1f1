use compilation_project::minifun::eval::eval;
use compilation_project::minifun::inference::{typecheck as infer_type, MonoType, TypeEnvironment};
use compilation_project::minifun::lexer::{lex, Token};
use compilation_project::minifun::parser::parse_term;
use compilation_project::minifun::runtime::{empty_env, Value};
use compilation_project::minifun::typecheck::typecheck;
use compilation_project::minifun::types::{empty_type_env, Type};

#[test]
fn tokenizes_annotated_function() {
    let tokens = lex("fun (x: Int) -> x + 1").expect("lexing should succeed");
    assert_eq!(
        tokens,
        vec![
            Token::Fun,
            Token::LeftParen,
            Token::Identifier("x".to_string()),
            Token::Colon,
            Token::IntType,
            Token::RightParen,
            Token::Arrow,
            Token::Identifier("x".to_string()),
            Token::Plus,
            Token::Integer(1),
            Token::Eof,
        ]
    );
}

#[test]
fn parser_multiplication_has_higher_precedence_than_addition() {
    let term = parse_term("2 + 3 * 4").expect("parsing should succeed");
    let value = eval(&term, &mut empty_env()).expect("evaluation should succeed");
    assert!(matches!(value, Value::Int(14)));
}

#[test]
fn parentheses_override_precedence() {
    let term = parse_term("(2 + 3) * 4").expect("parsing should succeed");
    let value = eval(&term, &mut empty_env()).expect("evaluation should succeed");
    assert!(matches!(value, Value::Int(20)));
}

#[test]
fn parses_evaluates_and_typechecks_recursive_factorial() {
    let source = r#"
        letfun fact(n: Int): Int =
            if n < 1 then
                1
            else
                n * fact (n - 1)
        in
            fact 5
    "#;
    let term = parse_term(source).expect("parsing should succeed");
    let value = eval(&term, &mut empty_env()).expect("evaluation should succeed");
    let ty = typecheck(&term, &mut empty_type_env()).expect("type checking should succeed");
    assert!(matches!(value, Value::Int(120)));
    assert_eq!(ty, Type::Int);
}

#[test]
fn parsed_identity_function_is_polymorphic_during_inference() {
    let source = r#"
        let id = fun (x: Int) -> x in
        let ignored = id 5 in
        id true
    "#;
    let term = parse_term(source).expect("parsing should succeed");
    let _env = TypeEnvironment::new();
    let ty = infer_type(&term).expect("inference should succeed");
    assert_eq!(ty, MonoType::Bool);
}
