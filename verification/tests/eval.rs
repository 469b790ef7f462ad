use sl_interp::error::EvalError;
use sl_interp::eval::Interpreter;
use sl_interp::floats::FloatArith;
use sl_interp::parser::Parser;
use sl_interp::sexpr::SExpr;
use sl_interp::value::Value;

struct Host;

impl FloatArith for Host {
    fn parse(&self, text: &str) -> Option<u64> {
        text.parse::<f64>().ok().map(f64::to_bits)
    }

    fn render(&self, bits: u64) -> String {
        f64::from_bits(bits).to_string()
    }

    fn widen(&self, value: i64) -> u64 {
        (value as f64).to_bits()
    }

    fn rem(&self, left: u64, right: u64) -> u64 {
        (f64::from_bits(left) % f64::from_bits(right)).to_bits()
    }

    fn successor(&self, bits: u64) -> u64 {
        (f64::from_bits(bits) + 1.0).to_bits()
    }
}

fn unknown_atom(atom: &str) -> EvalError {
    EvalError::UnknownAtom(atom.to_string())
}

fn unknown_form(name: &str) -> EvalError {
    EvalError::UnknownForm(name.to_string())
}

fn unbound(name: &str) -> EvalError {
    EvalError::UnboundVariable(name.to_string())
}

fn float(value: f64) -> Value {
    Value::Float(value.to_bits())
}

fn trees(text: &str) -> Vec<SExpr> {
    Parser::new(text).parse().unwrap()
}

/// Runs every expression of `text` and returns the result of the last one.
fn run(interpreter: &mut Interpreter<Host>, text: &str) -> Result<Value, EvalError> {
    let mut last = Ok(Value::Void);
    for tree in trees(text) {
        last = interpreter.eval(&tree);
        if last.is_err() {
            break;
        }
    }
    last
}

fn fresh(text: &str) -> (Result<Value, EvalError>, Vec<String>) {
    let mut interpreter = Interpreter::new(Host);
    let result = run(&mut interpreter, text);
    (result, interpreter.output().clone())
}

fn lines(expected: &[&str]) -> Vec<String> {
    expected.iter().map(|line| line.to_string()).collect()
}

#[test]
fn atoms_are_literals() {
    assert_eq!(fresh("true").0, Ok(Value::Bool(true)));
    assert_eq!(fresh("false").0, Ok(Value::Bool(false)));
    assert_eq!(fresh("42").0, Ok(Value::Int(42)));
    assert_eq!(fresh("-7").0, Ok(Value::Int(-7)));
    assert_eq!(fresh("+7").0, Ok(Value::Int(7)));
    assert_eq!(fresh("2.5").0, Ok(float(2.5)));
    assert_eq!(fresh("1e3").0, Ok(float(1000.0)));
    assert_eq!(fresh("x").0, Err(unknown_atom("x")));
    assert_eq!(fresh("-").0, Err(unknown_atom("-")));
}

#[test]
fn an_integer_literal_is_never_a_double() {
    assert_eq!(fresh("5").0, Ok(Value::Int(5)));
    assert_eq!(fresh("9223372036854775807").0, Ok(Value::Int(i64::MAX)));
    assert_eq!(fresh("-9223372036854775808").0, Ok(Value::Int(i64::MIN)));
    assert_eq!(fresh("9223372036854775808").0, Ok(float(9223372036854775808.0)));
}

#[test]
fn lists_must_begin_with_a_form() {
    assert_eq!(fresh("()").0, Err(EvalError::MalformedForm));
    assert_eq!(fresh("((print 1))").0, Err(EvalError::MalformedForm));
    assert_eq!(fresh("(frobnicate 1)").0, Err(unknown_form("frobnicate")));
}

#[test]
fn print_writes_one_line_per_argument() {
    let (result, output) = fresh("(print 1 true 2.5 (format a{}b 7))");
    assert_eq!(result, Ok(Value::Void));
    assert_eq!(output, lines(&["1", "true", "2.5", "a7b"]));
    let (result, output) = fresh("(print)");
    assert_eq!(result, Ok(Value::Void));
    assert_eq!(output, lines(&[]));
}

#[test]
fn print_writes_void_for_a_statement() {
    let (result, output) = fresh("(print (let x 1))");
    assert_eq!(result, Ok(Value::Void));
    assert_eq!(output, lines(&["void"]));
}

#[test]
fn print_stops_at_the_first_error() {
    let (result, output) = fresh("(print 1 (get y) 2)");
    assert_eq!(result, Err(unbound("y")));
    assert_eq!(output, lines(&["1"]));
}

#[test]
fn format_fills_the_template() {
    assert_eq!(fresh("(format {}-{} 1 true)").0, Ok(Value::String("1-true".to_string())));
    assert_eq!(fresh("(format {}{} 1)").0, Ok(Value::String("1".to_string())));
    assert_eq!(fresh("(format {} 1 2)").0, Ok(Value::String("1".to_string())));
    assert_eq!(fresh("(format plain)").0, Ok(Value::String("plain".to_string())));
    assert_eq!(fresh("(format {{}}{} 1.5)").0, Ok(Value::String("{}1.5".to_string())));
    assert_eq!(fresh("(format)").0, Err(EvalError::Arity));
    assert_eq!(fresh("(format (a) 1)").0, Err(EvalError::MalformedForm));
    assert_eq!(fresh("(format {} (get y))").0, Err(unbound("y")));
}

#[test]
fn let_binds_and_yields_nothing() {
    let mut interpreter = Interpreter::new(Host);
    assert_eq!(run(&mut interpreter, "(let x 5)"), Ok(Value::Void));
    assert_eq!(interpreter.lookup(&"x".to_string()), Some(Value::Int(5)));
    assert_eq!(run(&mut interpreter, "(let x true)"), Ok(Value::Void));
    assert_eq!(interpreter.lookup(&"x".to_string()), Some(Value::Bool(true)));
}

#[test]
fn set_binds_and_yields_the_value() {
    let mut interpreter = Interpreter::new(Host);
    assert_eq!(run(&mut interpreter, "(set x 5)"), Ok(Value::Int(5)));
    assert_eq!(interpreter.lookup(&"x".to_string()), Some(Value::Int(5)));
}

#[test]
fn binding_forms_check_their_arguments() {
    assert_eq!(fresh("(let)").0, Err(EvalError::Arity));
    assert_eq!(fresh("(let x)").0, Err(EvalError::Arity));
    assert_eq!(fresh("(let x 1 2)").0, Err(EvalError::Arity));
    assert_eq!(fresh("(let (x) 1)").0, Err(EvalError::MalformedForm));
    assert_eq!(fresh("(set)").0, Err(EvalError::Arity));
    assert_eq!(fresh("(set x)").0, Err(EvalError::Arity));
    assert_eq!(fresh("(set x 1 2)").0, Err(EvalError::Arity));
    assert_eq!(fresh("(set (x) 1)").0, Err(EvalError::MalformedForm));
    assert_eq!(fresh("(let x y)").0, Err(unknown_atom("y")));
}

#[test]
fn let_twice_is_let_once() {
    let mut once = Interpreter::new(Host);
    run(&mut once, "(let x 5)").unwrap();
    let mut twice = Interpreter::new(Host);
    run(&mut twice, "(let x 5)(let x 5)").unwrap();
    assert_eq!(once.lookup(&"x".to_string()), twice.lookup(&"x".to_string()));
    assert_eq!(twice.lookup(&"x".to_string()), Some(Value::Int(5)));
    assert_eq!(once.output(), twice.output());
}

#[test]
fn get_reads_a_variable() {
    assert_eq!(fresh("(let x 5)(get x)").0, Ok(Value::Int(5)));
    assert_eq!(fresh("(get)").0, Err(EvalError::Arity));
    assert_eq!(fresh("(get x y)").0, Err(EvalError::Arity));
    assert_eq!(fresh("(get (x))").0, Err(EvalError::MalformedForm));
}

#[test]
fn get_of_an_unbound_name_fails() {
    assert_eq!(fresh("(get y)").0, Err(unbound("y")));
    assert_eq!(fresh("(get y)(let y 1)").0, Err(unbound("y")));
}

#[test]
fn an_atom_is_no_variable() {
    assert_eq!(fresh("(let x 5)(print x)").0, Err(unknown_atom("x")));
}

#[test]
fn inc_keeps_the_kind() {
    let mut interpreter = Interpreter::new(Host);
    assert_eq!(run(&mut interpreter, "(let x 2.5)(inc x)"), Ok(float(3.5)));
    assert_eq!(interpreter.lookup(&"x".to_string()), Some(float(3.5)));
    assert_eq!(run(&mut interpreter, "(let n 41)(inc n)"), Ok(Value::Int(42)));
    assert_eq!(interpreter.lookup(&"n".to_string()), Some(Value::Int(42)));
}

#[test]
fn inc_of_what_is_no_number_fails() {
    assert_eq!(fresh("(let s (format hi))(inc s)").0, Err(EvalError::TypeMismatch));
    assert_eq!(fresh("(let b true)(inc b)").0, Err(EvalError::TypeMismatch));
    assert_eq!(fresh("(inc y)").0, Err(unbound("y")));
    assert_eq!(fresh("(inc)").0, Err(EvalError::Arity));
    assert_eq!(fresh("(let x 1)(inc x x)").0, Err(EvalError::Arity));
    assert_eq!(fresh("(inc (x))").0, Err(EvalError::MalformedForm));
}

#[test]
fn inc_past_the_greatest_integer_fails() {
    let mut interpreter = Interpreter::new(Host);
    assert_eq!(
        run(&mut interpreter, "(let x 9223372036854775807)(inc x)"),
        Err(EvalError::Arithmetic)
    );
    assert_eq!(interpreter.lookup(&"x".to_string()), Some(Value::Int(i64::MAX)));
}

#[test]
fn mod_widens_an_integer_beside_a_double() {
    assert_eq!(fresh("(mod 7 3)").0, Ok(Value::Int(1)));
    assert_eq!(fresh("(mod 7.5 2)").0, Ok(float(1.5)));
    assert_eq!(fresh("(mod 2 7.0)").0, Ok(float(2.0)));
    assert_eq!(fresh("(mod 7.5 2.0)").0, Ok(float(1.5)));
}

#[test]
fn mod_of_integers_takes_the_sign_of_the_left() {
    assert_eq!(fresh("(mod -7 3)").0, Ok(Value::Int(-1)));
    assert_eq!(fresh("(mod 7 -3)").0, Ok(Value::Int(1)));
    assert_eq!(fresh("(mod -7 -3)").0, Ok(Value::Int(-1)));
    assert_eq!(fresh("(mod 0 5)").0, Ok(Value::Int(0)));
    assert_eq!(fresh("(mod -9223372036854775808 3)").0, Ok(Value::Int(i64::MIN % 3)));
}

#[test]
fn mod_without_a_result_fails() {
    assert_eq!(fresh("(mod 7 0)").0, Err(EvalError::Arithmetic));
    assert_eq!(fresh("(mod -9223372036854775808 -1)").0, Err(EvalError::Arithmetic));
}

#[test]
fn mod_checks_its_arguments() {
    assert_eq!(fresh("(mod)").0, Err(EvalError::Arity));
    assert_eq!(fresh("(mod 1)").0, Err(EvalError::Arity));
    assert_eq!(fresh("(mod 1 2 3)").0, Err(EvalError::Arity));
    assert_eq!(fresh("(mod true 2)").0, Err(EvalError::TypeMismatch));
    assert_eq!(fresh("(mod 1 (format a))").0, Err(EvalError::TypeMismatch));
    assert_eq!(fresh("(mod 1.5 true)").0, Err(EvalError::TypeMismatch));
}

#[test]
fn eq_compares_values_of_one_kind() {
    assert_eq!(fresh("(eq 1 1)").0, Ok(Value::Bool(true)));
    assert_eq!(fresh("(eq 1 2)").0, Ok(Value::Bool(false)));
    assert_eq!(fresh("(eq 1.5 1.5)").0, Ok(Value::Bool(true)));
    assert_eq!(fresh("(eq 1.5 2.5)").0, Ok(Value::Bool(false)));
    assert_eq!(fresh("(eq true true)").0, Ok(Value::Bool(true)));
    assert_eq!(fresh("(eq true false)").0, Ok(Value::Bool(false)));
    assert_eq!(fresh("(eq (format a) (format a))").0, Ok(Value::Bool(true)));
    assert_eq!(fresh("(eq (format a) (format b))").0, Ok(Value::Bool(false)));
    assert_eq!(fresh("(eq (let x 1) (let y 2))").0, Ok(Value::Bool(true)));
}

#[test]
fn eq_of_two_kinds_fails() {
    assert_eq!(fresh("(eq 1 1.0)").0, Err(EvalError::TypeMismatch));
    assert_eq!(fresh("(eq 1.0 1)").0, Err(EvalError::TypeMismatch));
    assert_eq!(fresh("(eq true 1)").0, Err(EvalError::TypeMismatch));
    assert_eq!(fresh("(eq (format 1) 1)").0, Err(EvalError::TypeMismatch));
    assert_eq!(fresh("(eq (let x 1) 1)").0, Err(EvalError::TypeMismatch));
}

#[test]
fn eq_of_doubles_is_numeric() {
    assert_eq!(fresh("(eq 0.0 -0.0)").0, Ok(Value::Bool(true)));
    assert_eq!(fresh("(eq nan nan)").0, Ok(Value::Bool(false)));
    assert_eq!(fresh("(eq inf inf)").0, Ok(Value::Bool(true)));
    assert_eq!(fresh("(eq inf -inf)").0, Ok(Value::Bool(false)));
}

#[test]
fn eq_checks_its_arguments() {
    assert_eq!(fresh("(eq)").0, Err(EvalError::Arity));
    assert_eq!(fresh("(eq 1)").0, Err(EvalError::Arity));
    assert_eq!(fresh("(eq 1 1 1)").0, Err(EvalError::Arity));
}

#[test]
fn a_quoted_word_is_no_string() {
    assert_eq!(fresh("(eq \"a\" \"a\")").0, Err(unknown_atom("\"a\"")));
}

#[test]
fn if_without_else_yields_nothing() {
    let (result, output) = fresh("(if false ((print 1)))");
    assert_eq!(result, Ok(Value::Void));
    assert_eq!(output, lines(&[]));
    let (result, output) = fresh("(if false (print 1))");
    assert_eq!(result, Ok(Value::Void));
    assert_eq!(output, lines(&[]));
}

#[test]
fn if_runs_the_branch_that_the_condition_selects() {
    let (result, output) = fresh("(if true ((print 1)) else ((print 2)))");
    assert_eq!(result, Ok(Value::Void));
    assert_eq!(output, lines(&["1"]));
    let (result, output) = fresh("(if false ((print 1)) else ((print 2)))");
    assert_eq!(result, Ok(Value::Void));
    assert_eq!(output, lines(&["2"]));
    let (result, output) = fresh("(if (eq 1 1) ((print 1) (print 2)))");
    assert_eq!(result, Ok(Value::Void));
    assert_eq!(output, lines(&["1", "2"]));
}

#[test]
fn a_branch_is_a_sequence_of_statements() {
    let (result, output) = fresh("(if true (print 1) else (print 2))");
    assert_eq!(result, Err(unknown_atom("print")));
    assert_eq!(output, lines(&[]));
    assert_eq!(fresh("(if true ())").0, Ok(Value::Void));
    assert_eq!(fresh("(if true ((set x 1)))").0, Ok(Value::Void));
}

#[test]
fn an_atom_branch_yields_its_value() {
    assert_eq!(fresh("(if true 1 else 2)").0, Ok(Value::Int(1)));
    assert_eq!(fresh("(if false 1 else 2)").0, Ok(Value::Int(2)));
    assert_eq!(fresh("(if false 1)").0, Ok(Value::Void));
    assert_eq!(fresh("(if true x)").0, Err(unknown_atom("x")));
}

#[test]
fn if_checks_its_arguments() {
    assert_eq!(fresh("(if)").0, Err(EvalError::Arity));
    assert_eq!(fresh("(if true)").0, Err(EvalError::Arity));
    assert_eq!(fresh("(if true 1 else)").0, Err(EvalError::Arity));
    assert_eq!(fresh("(if true 1 2)").0, Err(EvalError::Arity));
    assert_eq!(fresh("(if true 1 otherwise 2)").0, Err(EvalError::Arity));
    assert_eq!(fresh("(if true 1 else 2 3)").0, Err(EvalError::Arity));
    assert_eq!(fresh("(if 1 2)").0, Err(EvalError::TypeMismatch));
    assert_eq!(fresh("(if 1)").0, Err(EvalError::TypeMismatch));
    assert_eq!(fresh("(if (get y) 1)").0, Err(unbound("y")));
}

#[test]
fn count_runs_from_start_up_to_end() {
    let (result, output) = fresh("(count i from 0 to 3 ((print (get i))))");
    assert_eq!(result, Ok(Value::Void));
    assert_eq!(output, lines(&["0", "1", "2"]));
    let (result, output) = fresh("(count i from 5 to 5 ((print (get i))))");
    assert_eq!(result, Ok(Value::Void));
    assert_eq!(output, lines(&[]));
    let (result, output) = fresh("(count i from 5 to 5 (print (get i)))");
    assert_eq!(result, Ok(Value::Void));
    assert_eq!(output, lines(&[]));
    let (result, output) = fresh("(count i from 3 to 0 ((print (get i))))");
    assert_eq!(result, Ok(Value::Void));
    assert_eq!(output, lines(&[]));
    let (result, output) = fresh("(count i from -2 to (mod 7 5) ((print (get i))))");
    assert_eq!(result, Ok(Value::Void));
    assert_eq!(output, lines(&["-2", "-1", "0", "1"]));
}

#[test]
fn count_body_is_a_sequence_of_statements() {
    let (result, output) = fresh("(count i from 0 to 3 (print (get i)))");
    assert_eq!(result, Err(unknown_atom("print")));
    assert_eq!(output, lines(&[]));
}

#[test]
fn count_leaves_its_variable_bound() {
    let mut interpreter = Interpreter::new(Host);
    assert_eq!(run(&mut interpreter, "(count i from 0 to 3 ())"), Ok(Value::Void));
    assert_eq!(interpreter.lookup(&"i".to_string()), Some(Value::Int(2)));
    assert_eq!(run(&mut interpreter, "(count j from 3 to 3 ())"), Ok(Value::Void));
    assert_eq!(interpreter.lookup(&"j".to_string()), None);
}

#[test]
fn count_goes_by_its_range_whatever_the_body_binds() {
    let (result, output) = fresh("(count i from 0 to 3 ((inc i) (print (get i))))");
    assert_eq!(result, Ok(Value::Void));
    assert_eq!(output, lines(&["1", "2", "3"]));
}

#[test]
fn count_checks_its_arguments() {
    assert_eq!(fresh("(count)").0, Err(EvalError::Arity));
    assert_eq!(fresh("(count (i) from 0 to 3 ())").0, Err(EvalError::MalformedForm));
    assert_eq!(fresh("(count i)").0, Err(EvalError::Arity));
    assert_eq!(fresh("(count i in 0 to 3 ())").0, Err(EvalError::MalformedForm));
    assert_eq!(fresh("(count i from)").0, Err(EvalError::Arity));
    assert_eq!(fresh("(count i from true to 3 ())").0, Err(EvalError::TypeMismatch));
    assert_eq!(fresh("(count i from 0.5 to 3 ())").0, Err(EvalError::TypeMismatch));
    assert_eq!(fresh("(count i from 0)").0, Err(EvalError::Arity));
    assert_eq!(fresh("(count i from 0 until 3 ())").0, Err(EvalError::MalformedForm));
    assert_eq!(fresh("(count i from 0 to)").0, Err(EvalError::Arity));
    assert_eq!(fresh("(count i from 0 to 3.5 ())").0, Err(EvalError::TypeMismatch));
    assert_eq!(fresh("(count i from 0 to 3)").0, Err(EvalError::Arity));
    assert_eq!(fresh("(count i from 0 to 3 () ())").0, Err(EvalError::Arity));
    assert_eq!(fresh("(count i from 0 to 3 1)").0, Err(EvalError::MalformedForm));
}

#[test]
fn count_stops_at_the_first_error() {
    let mut interpreter = Interpreter::new(Host);
    let result = run(&mut interpreter, "(count i from 0 to 3 ((print (get i)) (get y)))");
    assert_eq!(result, Err(unbound("y")));
    assert_eq!(interpreter.output(), &lines(&["0"]));
    assert_eq!(interpreter.lookup(&"i".to_string()), Some(Value::Int(0)));
}

#[test]
fn eval_list_runs_each_and_yields_nothing() {
    let mut interpreter = Interpreter::new(Host);
    let result = interpreter.eval_list(&trees("(set x 1) (print (get x)) 7"));
    assert_eq!(result, Ok(Value::Void));
    assert_eq!(interpreter.output(), &lines(&["1"]));
}

#[test]
fn eval_atom_reads_a_literal() {
    let mut interpreter = Interpreter::new(Host);
    assert_eq!(interpreter.eval_atom(&"12".to_string()), Ok(Value::Int(12)));
    assert_eq!(interpreter.eval_atom(&"true".to_string()), Ok(Value::Bool(true)));
    assert_eq!(interpreter.eval_atom(&"0.25".to_string()), Ok(float(0.25)));
    assert_eq!(interpreter.eval_atom(&"twelve".to_string()), Err(unknown_atom("twelve")));
}

#[test]
fn increment_and_remainder_work_on_values() {
    let mut interpreter = Interpreter::new(Host);
    assert_eq!(interpreter.increment(&Value::Int(1)), Ok(Value::Int(2)));
    assert_eq!(interpreter.increment(&float(0.5)), Ok(float(1.5)));
    assert_eq!(interpreter.increment(&Value::Null), Err(EvalError::TypeMismatch));
    assert_eq!(interpreter.remainder(&Value::Int(9), &Value::Int(4)), Ok(Value::Int(1)));
    assert_eq!(interpreter.remainder(&float(9.5), &Value::Int(4)), Ok(float(1.5)));
    assert_eq!(interpreter.remainder(&Value::Int(9), &float(2.5)), Ok(float(1.5)));
    assert_eq!(
        interpreter.remainder(&Value::Void, &Value::Int(1)),
        Err(EvalError::TypeMismatch)
    );
}
