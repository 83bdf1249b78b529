use flae::ast::{Expression, Identifier, Statement};
use flae::lexer::Lexer;
use flae::parser::Parser;

#[test]
fn test_multiple_let_statements() {
    let input = "let five = 5;
    let ten = 10;
    let foobar = 838383;
    let func a b = 8;#
    ";

    let lexer = Lexer::new(input);
    let mut parser = Parser::new(lexer);

    let program = parser.parse_program();

    assert_eq!(
        program.statements.len(),
        4,
        "Program.statements does not contain 4 statements"
    );

    let tests = vec![
        ("five", None, "5"),
        ("ten", None, "10"),
        ("foobar", None, "838383"),
        (
            "func",
            Some(vec![
                Identifier {
                    name: "a".to_string(),
                },
                Identifier {
                    name: "b".to_string(),
                },
            ]),
            "8",
        ),
    ];

    for (i, (name, args, value)) in tests.iter().enumerate() {
        match &program.statements[i] {
            Statement::Let(let_statement) => {
                assert_eq!(let_statement.identifier.name, *name);
                assert_eq!(let_statement.args, *args);

                match &let_statement.value {
                    Expression::Literal(literal) => {
                        assert_eq!(literal.value, *value);
                    }
                    _ => panic!("Expected a literal"),
                }
            }
            _ => panic!("Expected a let statement"),
        }
    }
}

#[test]
fn test_multiple_return_statements() {
    let input = "return 5;
    return a;
    ";

    let lexer = Lexer::new(input);
    let mut parser = Parser::new(lexer);

    let program = parser.parse_program();

    assert_eq!(
        program.statements.len(),
        2,
        "Program.statements does not contain 2 statements"
    );

    let tests = vec!["5", "a"];

    for (i, value) in tests.iter().enumerate() {
        match &program.statements[i] {
            Statement::Return(ret_statement) => match &ret_statement {
                Expression::Literal(literal) => {
                    assert_eq!(literal.value, *value);
                }
                Expression::Identifier(identifier) => {
                    assert_eq!(identifier.name, *value);
                }
                _ => panic!("Expected a literal"),
            },
            _ => panic!("Expected a let statement"),
        }
    }
}

fn parse(input: &str) -> (flae::ast::Program, Vec<String>) {
    let mut parser = Parser::new(Lexer::new(input));
    let program = parser.parse_program();
    let errors = parser.errors().clone();
    (program, errors)
}

fn ids(names: &[&str]) -> Vec<Identifier> {
    names.iter().map(|n| Identifier { name: n.to_string() }).collect()
}

#[test]
fn let_plain_binding() {
    let (program, errors) = parse("let five = 5;");
    assert_eq!(program.statements.len(), 1);
    match &program.statements[0] {
        Statement::Let(l) => {
            assert_eq!(l.identifier.name, "five");
            assert_eq!(l.args, None);
            match &l.value {
                Expression::Literal(lit) => assert_eq!(lit.value, "5"),
                _ => panic!("Expected a literal"),
            }
        }
        _ => panic!("Expected a let statement"),
    }
    assert!(errors.is_empty());
}

#[test]
fn let_with_parameters() {
    let (program, errors) = parse("let add a b = 8;");
    assert_eq!(program.statements.len(), 1);
    match &program.statements[0] {
        Statement::Let(l) => {
            assert_eq!(l.identifier.name, "add");
            assert_eq!(l.args, Some(ids(&["a", "b"])));
            match &l.value {
                Expression::Literal(lit) => assert_eq!(lit.value, "8"),
                _ => panic!("Expected a literal"),
            }
        }
        _ => panic!("Expected a let statement"),
    }
    assert!(errors.is_empty());
}

#[test]
fn return_literal_then_identifier() {
    let (program, errors) = parse("return 5; return a;");
    assert_eq!(program.statements.len(), 2);
    match &program.statements[0] {
        Statement::Return(Expression::Literal(lit)) => assert_eq!(lit.value, "5"),
        _ => panic!("Expected a return of a literal"),
    }
    match &program.statements[1] {
        Statement::Return(Expression::Identifier(id)) => assert_eq!(id.name, "a"),
        _ => panic!("Expected a return of an identifier"),
    }
    assert!(errors.is_empty());
}

#[test]
fn empty_input_gives_empty_program() {
    let (program, errors) = parse("");
    assert!(program.statements.is_empty());
    assert!(errors.is_empty());
}

#[test]
fn let_without_identifier_records_diagnostic() {
    let (program, errors) = parse("let 5 = 5;");
    assert!(program.statements.is_empty());
    assert_eq!(errors, vec!["Expected identifier".to_string()]);
}

#[test]
fn let_with_bad_token_after_name_records_diagnostic() {
    let (program, errors) = parse("let x + 5;");
    assert!(program.statements.is_empty());
    assert_eq!(errors, vec!["Unexpected character after identifier".to_string()]);
}

#[test]
fn let_with_non_integer_value_records_diagnostic() {
    let (program, errors) = parse("let x = y; let z = 1;");
    assert_eq!(program.statements.len(), 1);
    match &program.statements[0] {
        Statement::Let(l) => assert_eq!(l.identifier.name, "z"),
        _ => panic!("Expected a let statement"),
    }
    assert_eq!(errors, vec!["Expected integer".to_string()]);
}

#[test]
fn let_at_end_of_input_records_diagnostic() {
    let (program, errors) = parse("let");
    assert!(program.statements.is_empty());
    assert_eq!(errors, vec!["Expected identifier".to_string()]);
}

#[test]
fn let_parameters_need_no_assign_before_value() {
    let (program, errors) = parse("let f a + 3");
    assert_eq!(program.statements.len(), 1);
    match &program.statements[0] {
        Statement::Let(l) => {
            assert_eq!(l.identifier.name, "f");
            assert_eq!(l.args, Some(ids(&["a"])));
        }
        _ => panic!("Expected a let statement"),
    }
    assert!(errors.is_empty());
}

#[test]
fn failed_return_records_no_diagnostic() {
    let (program, errors) = parse("return ; return 7");
    assert_eq!(program.statements.len(), 1);
    match &program.statements[0] {
        Statement::Return(Expression::Literal(lit)) => assert_eq!(lit.value, "7"),
        _ => panic!("Expected a return of a literal"),
    }
    assert!(errors.is_empty());
}

#[test]
fn other_tokens_are_skipped() {
    let (program, errors) = parse("1 + 2; if x return y");
    assert_eq!(program.statements.len(), 1);
    match &program.statements[0] {
        Statement::Return(Expression::Identifier(id)) => assert_eq!(id.name, "y"),
        _ => panic!("Expected a return of an identifier"),
    }
    assert!(errors.is_empty());
}

#[test]
fn parsing_stops_at_unrecognized_character() {
    let (program, errors) = parse("return 1; @ return 2;");
    assert_eq!(program.statements.len(), 1);
    assert!(errors.is_empty());
}
