use lox::ast::{BinaryOp, Expression, Literal, LogicalOp, Primary, Program, Statement};
use lox::parser::{consume, get_identifier, map_binary_op};
use lox::scanner::Scanner;
use lox::tokens::{Token, TokenType};

fn tokens(source: &str) -> Vec<Token> {
    let mut scanner = Scanner::new(source);
    let (tokens, errors) = scanner.tokenize();
    assert!(errors.is_empty());
    tokens
}

fn parse(source: &str) -> Result<Program, Vec<String>> {
    Program::parse(&tokens(source))
}

#[test]
fn counts_top_level_statements() {
    let program = parse("var a = 1; print a; { a = 2; print a; } fun f(x) { return x; } if (a) print a; while (false) a = 3;").unwrap();
    assert_eq!(program.statements.len(), 6);
}

#[test]
fn precedence_and_associativity() {
    let t = tokens("1 - 2 - 3 * 4;");
    let (expr, next) = Expression::parse(&t, 0).ok().unwrap();
    assert_eq!(next, 7);
    match expr {
        Expression::Binary(b) => {
            assert_eq!(b.op, BinaryOp::Minus);
            match *b.left {
                Expression::Binary(inner) => assert_eq!(inner.op, BinaryOp::Minus),
                _ => panic!("left operand should be a subtraction"),
            }
            match *b.right {
                Expression::Binary(inner) => assert_eq!(inner.op, BinaryOp::Multiply),
                _ => panic!("right operand should be a product"),
            }
        }
        _ => panic!("expected a binary expression"),
    }
}

#[test]
fn assignment_is_right_associative() {
    let t = tokens("a = b = c or d and e");
    let (expr, next) = Expression::parse(&t, 0).ok().unwrap();
    assert_eq!(next, t.len());
    match expr {
        Expression::Assignment(a) => {
            assert_eq!(a.variable, "a");
            match *a.value {
                Expression::Assignment(b) => match *b.value {
                    Expression::Logical(l) => assert_eq!(l.op, LogicalOp::Or),
                    _ => panic!("expected or"),
                },
                _ => panic!("expected nested assignment"),
            }
        }
        _ => panic!("expected an assignment"),
    }
}

#[test]
fn for_loop_is_a_block_with_a_while() {
    let program = parse("for (var i = 0; i < 3; i = i + 1) print i;").unwrap();
    assert_eq!(program.statements.len(), 1);
    match &program.statements[0] {
        Statement::Block(block) => {
            assert_eq!(block.statements.len(), 2);
            assert!(matches!(block.statements[0], Statement::Declaration(_)));
            match &block.statements[1] {
                Statement::Iteration(w) => match &*w.body {
                    Statement::Block(body) => {
                        assert_eq!(body.statements.len(), 2);
                        assert!(matches!(body.statements[0], Statement::Print(_)));
                        assert!(matches!(body.statements[1], Statement::Expression(_)));
                    }
                    _ => panic!("expected the body and the increment in a block"),
                },
                _ => panic!("expected a while loop"),
            }
        }
        _ => panic!("expected a block"),
    }
}

#[test]
fn for_loop_without_clauses_loops_on_true() {
    let program = parse("for (;;) print 1;").unwrap();
    match &program.statements[0] {
        Statement::Block(block) => {
            assert_eq!(block.statements.len(), 1);
            match &block.statements[0] {
                Statement::Iteration(w) => {
                    assert!(matches!(w.cond, Expression::Literal(Literal::Primary(Primary::Boolean(true)))));
                    assert!(matches!(*w.body, Statement::Print(_)));
                }
                _ => panic!("expected a while loop"),
            }
        }
        _ => panic!("expected a block"),
    }
}

#[test]
fn five_statements_in_order() {
    let program = parse("var a = 1; print a; { a = 2; } fun f() { return a; } for (;;) a;").unwrap();
    assert_eq!(program.statements.len(), 5);
    assert!(matches!(program.statements[0], Statement::Declaration(_)));
    assert!(matches!(program.statements[1], Statement::Print(_)));
    assert!(matches!(program.statements[2], Statement::Block(_)));
    assert!(matches!(program.statements[3], Statement::Function(_)));
    assert!(matches!(program.statements[4], Statement::Block(_)));
}

#[test]
fn parsing_goes_on_after_an_invalid_target() {
    let errors = parse("1 = 2; print 3 + ;").err().unwrap();
    assert_eq!(
        errors,
        vec!["L1:3 Invalid assignment target.".to_string(), "L1:18 Unexpected character".to_string()]
    );
}

#[test]
fn consume_matches_any_identifier() {
    let t = tokens("name");
    assert_eq!(consume(&t, 0, TokenType::IDENTIFIER(String::new()), "Expect name").ok(), Some(1));
}

#[test]
fn invalid_assignment_target_does_not_stop_parsing() {
    let errors = parse("1 = 2; print 3; (a) = 4; print x +;").err().unwrap();
    assert_eq!(errors.len(), 3);
    assert_eq!(errors[0], "L1:3 Invalid assignment target.");
    assert_eq!(errors[1], "L1:21 Invalid assignment target.");
    assert_eq!(errors[2], "L1:35 Unexpected character");
}

#[test]
fn missing_semicolon_at_end() {
    let errors = parse("print 1").err().unwrap();
    assert_eq!(errors, vec!["Expect ';' after print statement found EOF".to_string()]);
}

#[test]
fn consume_reports_position() {
    let t = tokens("( x");
    assert_eq!(consume(&t, 0, TokenType::LEFT_PAREN, "Expect (").ok(), Some(1));
    let err = consume(&t, 1, TokenType::RIGHT_PAREN, "Expect )").err().unwrap();
    assert_eq!(err.message, "L1:3 Expect )");
    assert_eq!(err.position, 1);
}

#[test]
fn get_identifier_reads_names() {
    let t = tokens("name 1");
    let (name, next) = get_identifier(&t, 0).ok().unwrap();
    assert_eq!(name, "name");
    assert_eq!(next, 1);
    let err = get_identifier(&t, 1).err().unwrap();
    assert_eq!(err.message, "L1:6 Expected IDENTIFIER");
    let err = get_identifier(&t, 2).err().unwrap();
    assert_eq!(err.message, "Expected IDENTIFIER found EOF");
}

#[test]
fn binary_operators_map_from_tokens() {
    assert_eq!(map_binary_op(&TokenType::EQUAL_EQUAL), BinaryOp::EqualEqual);
    assert_eq!(map_binary_op(&TokenType::BANG_EQUAL), BinaryOp::NotEqual);
    assert_eq!(map_binary_op(&TokenType::LESS_EQUAL), BinaryOp::LessEqual);
    assert_eq!(map_binary_op(&TokenType::HYPHEN), BinaryOp::Minus);
    assert_eq!(map_binary_op(&TokenType::ASTERICS), BinaryOp::Multiply);
    assert_eq!(map_binary_op(&TokenType::SLASH), BinaryOp::Divide);
}

#[test]
fn function_declaration_with_parameters() {
    let program = parse("fun add(a, b) { return a + b; }").unwrap();
    match &program.statements[0] {
        Statement::Function(f) => {
            assert_eq!(f.name, "add");
            assert_eq!(f.params, vec!["a".to_string(), "b".to_string()]);
        }
        _ => panic!("expected a function"),
    }
}

#[test]
fn empty_program_parses() {
    let program = parse("").unwrap();
    assert!(program.statements.is_empty());
}
