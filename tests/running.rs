use lox::ast::{BinaryOp, UnaryOp, Value};
use lox::environment::Environment;
use lox::runner::{short_circuit, values_equal, Interpreter, Numbers};
use lox::{run, run_in};

struct Doubles;

impl Numbers for Doubles {
    fn number(&self, text: &str) -> u64 {
        text.parse::<f64>().unwrap().to_bits()
    }

    fn arithmetic(&self, op: BinaryOp, left: u64, right: u64) -> u64 {
        let (a, b) = (f64::from_bits(left), f64::from_bits(right));
        let r = match op {
            BinaryOp::Plus => a + b,
            BinaryOp::Minus => a - b,
            BinaryOp::Multiply => a * b,
            _ => a / b,
        };
        r.to_bits()
    }

    fn compare(&self, op: BinaryOp, left: u64, right: u64) -> bool {
        let (a, b) = (f64::from_bits(left), f64::from_bits(right));
        match op {
            BinaryOp::Less => a < b,
            BinaryOp::LessEqual => a <= b,
            BinaryOp::Greater => a > b,
            _ => a >= b,
        }
    }

    fn equal(&self, left: u64, right: u64) -> bool {
        f64::from_bits(left) == f64::from_bits(right)
    }

    fn negate(&self, value: u64) -> u64 {
        (-f64::from_bits(value)).to_bits()
    }

    fn render(&self, value: u64) -> String {
        format!("{}", f64::from_bits(value))
    }
}

fn output(code: &str) -> Vec<String> {
    let (lines, errors) = run(code, &Doubles);
    assert!(errors.is_empty(), "unexpected errors: {:?}", errors);
    lines
}

fn failure(code: &str) -> (Vec<String>, Vec<String>) {
    let (lines, errors) = run(code, &Doubles);
    assert!(!errors.is_empty());
    (lines, errors)
}

#[test]
fn arithmetic_precedence() {
    assert_eq!(output("print 1 + 2 * 3;"), vec!["7"]);
}

#[test]
fn string_concatenation() {
    assert_eq!(output("var a = \"foo\"; var b = \"bar\"; print a + b;"), vec!["foobar"]);
}

#[test]
fn while_loop_counts() {
    assert_eq!(output("var i = 0;\nwhile (i < 3) { print i; i = i + 1; }"), vec!["0", "1", "2"]);
}

#[test]
fn counter_closure() {
    let code = "fun make_counter() {\n  var c = 0;\n  fun inc() { c = c + 1; return c; }\n  return inc;\n}\nvar k = make_counter();\nprint k(); print k(); print k();";
    assert_eq!(output(code), vec!["1", "2", "3"]);
}

#[test]
fn recursive_fibonacci() {
    let code = "fun fib(n) {\n  if (n < 2) return n;\n  return fib(n - 1) + fib(n - 2);\n}\nprint fib(10);";
    assert_eq!(output(code), vec!["55"]);
}

#[test]
fn negating_nil_fails() {
    let (lines, errors) = failure("print -nil;");
    assert!(lines.is_empty());
    assert!(errors[0].contains("Can't apply unary operator '-' to nil"));
}

#[test]
fn closures_see_later_assignments() {
    assert_eq!(output("var x = 1; fun f() { return x; } x = 2; print f();"), vec!["2"]);
}

#[test]
fn two_closures_share_a_scope() {
    let code = "fun pair() { var n = 0; fun inc() { n = n + 1; } fun get() { return n; } inc(); inc(); return get; } print pair()();";
    assert_eq!(output(code), vec!["2"]);
}

#[test]
fn logical_operators_short_circuit() {
    assert_eq!(
        output("print false and undefined; print true or undefined; print nil or \"x\"; print 1 and 2; print nil and 1;"),
        vec!["false", "true", "x", "2", "nil"]
    );
}

#[test]
fn only_false_and_nil_are_falsy() {
    assert_eq!(
        output("if (0) print \"zero\"; if (\"\") print \"empty\"; if (nil) print \"nil\"; else print \"no\"; if (false) print 1; else print \"false\"; print !nil; print !0;"),
        vec!["zero", "empty", "no", "false", "true", "false"]
    );
}

#[test]
fn equality_across_kinds() {
    assert_eq!(
        output("print nil == nil; print nil == 0; print \"a\" == \"a\"; print 1 == 1; print \"1\" == 1; print true != false;"),
        vec!["true", "false", "true", "true", "false", "true"]
    );
}

#[test]
fn for_loop_matches_block_with_while() {
    let looped = output("for (var i = 0; i < 3; i = i + 1) print i;");
    let written = output("{ var i = 0; while (i < 3) { print i; i = i + 1; } }");
    assert_eq!(looped, written);
    assert_eq!(looped, vec!["0", "1", "2"]);
}

#[test]
fn numbers_format_like_doubles() {
    assert_eq!(output("print 1.5; print 10 / 4; print 1 / 0; print 3 - 5;"), vec!["1.5", "2.5", "inf", "-2"]);
}

#[test]
fn functions_print_with_their_name() {
    assert_eq!(output("fun f() {} print f; print f();"), vec!["<function f>", "nil"]);
}

#[test]
fn undefined_variable_fails() {
    let (_, errors) = failure("print y;");
    assert_eq!(errors, vec!["y not defined".to_string()]);
}

#[test]
fn assigning_undeclared_variable_fails() {
    let (_, errors) = failure("y = 1;");
    assert_eq!(errors, vec!["Variable 'y' not declared".to_string()]);
}

#[test]
fn calling_a_number_fails() {
    let (_, errors) = failure("var a = 1; a();");
    assert_eq!(errors, vec!["1 is not callable".to_string()]);
}

#[test]
fn adding_number_and_string_fails() {
    let (lines, errors) = failure("print 1; print 1 + \"a\"; print 2;");
    assert_eq!(lines, vec!["1"]);
    assert_eq!(errors, vec!["'+' operator is not defined for 1 and a".to_string()]);
}

#[test]
fn comparing_strings_fails() {
    let (_, errors) = failure("print \"a\" < \"b\";");
    assert_eq!(errors, vec!["'<' operator is not defined for a and b".to_string()]);
}

#[test]
fn calling_nil_fails() {
    let (_, errors) = failure("nil();");
    assert_eq!(errors, vec!["nil is not callable".to_string()]);
}

#[test]
fn arguments_are_evaluated_in_the_caller() {
    let code = "var x = \"outer\"; fun show(v) { print v; } fun f() { var x = \"inner\"; show(x); } f(); show(x);";
    assert_eq!(output(code), vec!["inner", "outer"]);
}

#[test]
fn recursion_does_not_share_locals() {
    let code = "fun count(n) { var local = n; if (n > 0) count(n - 1); print local; } count(2);";
    assert_eq!(output(code), vec!["0", "1", "2"]);
}

#[test]
fn return_at_top_level_fails() {
    let (_, errors) = failure("return 1;");
    assert_eq!(errors, vec!["Cannot have return outside a function".to_string()]);
}

#[test]
fn scan_errors_stop_the_program() {
    let (lines, errors) = failure("print 1; @");
    assert!(lines.is_empty());
    assert_eq!(errors, vec!["L1:10 Unknown token: '@'".to_string()]);
}

#[test]
fn scan_and_parse_errors_are_reported_together() {
    let (lines, errors) = failure("print 1 @\nprint;");
    assert!(lines.is_empty());
    assert_eq!(
        errors,
        vec![
            "L1:9 Unknown token: '@'".to_string(),
            "L2:1 Expect ';' after print statement".to_string(),
            "L2:6 Unexpected character".to_string(),
        ]
    );
}

#[test]
fn block_scopes_shadow_and_restore() {
    assert_eq!(output("var a = 1; { var a = 2; print a; } print a;"), vec!["2", "1"]);
}

#[test]
fn surplus_arguments_are_ignored() {
    assert_eq!(output("fun f(a) { return a; } print f(1, 2);"), vec!["1"]);
}

#[test]
fn loops_stop_at_the_step_limit() {
    let mut interpreter = Interpreter::new(5);
    let result = run_in(&mut interpreter, "var i = 0; while (true) { print i; i = i + 1; }", &Doubles);
    assert_eq!(result.err().unwrap(), vec!["Too many loop iterations.".to_string()]);
    assert_eq!(interpreter.output.len(), 5);
}

#[test]
fn session_keeps_globals() {
    let mut interpreter = Interpreter::new(1000);
    assert!(run_in(&mut interpreter, "var a = 40;", &Doubles).is_ok());
    assert!(run_in(&mut interpreter, "print a +;", &Doubles).is_err());
    assert!(run_in(&mut interpreter, "print a + 2;", &Doubles).is_ok());
    assert_eq!(interpreter.output, vec!["42".to_string()]);
}

#[test]
fn truthiness_of_values() {
    assert!(!Value::Nil.is_truthy());
    assert!(!Value::Boolean(false).is_truthy());
    assert!(Value::Boolean(true).is_truthy());
    assert!(Value::Number(0).is_truthy());
    assert!(Value::String(String::new()).is_truthy());
}

#[test]
fn short_circuit_returns_the_operand() {
    assert!(matches!(short_circuit(lox::ast::LogicalOp::And, &Value::Nil), Some(Value::Nil)));
    assert!(short_circuit(lox::ast::LogicalOp::And, &Value::Boolean(true)).is_none());
    assert!(matches!(short_circuit(lox::ast::LogicalOp::Or, &Value::Number(7)), Some(Value::Number(7))));
    assert!(short_circuit(lox::ast::LogicalOp::Or, &Value::Boolean(false)).is_none());
}

#[test]
fn equality_of_values() {
    assert!(values_equal(&Value::Nil, &Value::Nil, &Doubles));
    assert!(!values_equal(&Value::Nil, &Value::Number(0), &Doubles));
    assert!(values_equal(&Value::String("a".to_string()), &Value::String("a".to_string()), &Doubles));
    assert!(values_equal(&Value::Number(0.0f64.to_bits()), &Value::Number((-0.0f64).to_bits()), &Doubles));
}

#[test]
fn unary_operators() {
    let interpreter = Interpreter::new(0);
    assert!(matches!(interpreter.unary(UnaryOp::Not, &Value::Nil, &Doubles), Ok(Value::Boolean(true))));
    let neg = interpreter.unary(UnaryOp::Minus, &Value::Number(2.0f64.to_bits()), &Doubles);
    assert!(matches!(neg, Ok(Value::Number(b)) if f64::from_bits(b) == -2.0));
    let err = interpreter.unary(UnaryOp::Minus, &Value::Boolean(true), &Doubles).err().unwrap();
    assert_eq!(err, "Can't apply unary operator '-' to true");
}

#[test]
fn environment_assignment_reaches_enclosing_scope() {
    let mut env = Environment::new();
    let inner = env.append(0);
    env.declare(0, "x".to_string(), Value::Number(1));
    assert!(env.assign(inner, "x".to_string(), Value::Number(2)).is_ok());
    assert!(matches!(env.get(0, &"x".to_string()), Some(Value::Number(2))));
    assert!(matches!(env.get(inner, &"x".to_string()), Some(Value::Number(2))));
    let err = env.assign(inner, "y".to_string(), Value::Nil).err().unwrap();
    assert_eq!(err, "Variable 'y' not declared");
    assert!(env.get(inner, &"y".to_string()).is_none());
}
