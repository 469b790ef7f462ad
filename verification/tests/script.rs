use sl_interp::error::{EvalError, ScriptError, SyntaxError};
use sl_interp::eval::Interpreter;
use sl_interp::floats::FloatArith;
use sl_interp::value::Value;

struct Host;

impl FloatArith for Host {
    fn parse(&self, text: &str) -> Option<u64> {
        text.parse::<f64>().ok().map(f64::to_bits)
    }

    fn render(&self, bits: u64) -> String {
        f64::from_bits(bits).to_string()
    }

    fn widen(&self, value: i64) -> u64 {
        (value as f64).to_bits()
    }

    fn rem(&self, left: u64, right: u64) -> u64 {
        (f64::from_bits(left) % f64::from_bits(right)).to_bits()
    }

    fn successor(&self, bits: u64) -> u64 {
        (f64::from_bits(bits) + 1.0).to_bits()
    }
}

fn lines(expected: &[&str]) -> Vec<String> {
    expected.iter().map(|line| line.to_string()).collect()
}

#[test]
fn a_script_runs_its_expressions_in_order() {
    let mut interpreter = Interpreter::new(Host);
    let by_three = "(if (eq (mod (get i) 3) 0) ((print (format Fizz))) else ((print (get i))))";
    let by_five = format!("(if (eq (mod (get i) 5) 0) ((print (format Buzz))) else ({}))", by_three);
    let by_fifteen =
        format!("(if (eq (mod (get i) 15) 0) ((print (format FizzBuzz))) else ({}))", by_five);
    let script = format!(
        "(let total 0)\n(count i from 1 to 16 ({} (inc total)))\n(print (get total))",
        by_fifteen
    );
    let script = script.as_str();
    assert_eq!(interpreter.run(script), Ok(()));
    assert_eq!(
        interpreter.output(),
        &lines(&[
            "1", "2", "Fizz", "4", "Buzz", "Fizz", "7", "8", "Fizz", "Buzz", "11", "Fizz", "13",
            "14", "FizzBuzz", "15",
        ])
    );
    assert_eq!(interpreter.lookup(&"i".to_string()), Some(Value::Int(15)));
}

#[test]
fn an_empty_script_does_nothing() {
    let mut interpreter = Interpreter::new(Host);
    assert_eq!(interpreter.run(""), Ok(()));
    assert_eq!(interpreter.run(" \n "), Ok(()));
    assert_eq!(interpreter.output(), &lines(&[]));
}

#[test]
fn a_script_that_cannot_be_read_runs_nothing() {
    let mut interpreter = Interpreter::new(Host);
    assert_eq!(
        interpreter.run("(print 1) (print 2"),
        Err(ScriptError::Syntax(SyntaxError::UnclosedList))
    );
    assert_eq!(
        interpreter.run("(print 1))"),
        Err(ScriptError::Syntax(SyntaxError::UnexpectedClose))
    );
    assert_eq!(interpreter.output(), &lines(&[]));
}

#[test]
fn the_first_error_ends_the_run() {
    let mut interpreter = Interpreter::new(Host);
    assert_eq!(
        interpreter.run("(print 1) (let x 2) (get y) (print 3)"),
        Err(ScriptError::Eval(EvalError::UnboundVariable("y".to_string())))
    );
    assert_eq!(interpreter.output(), &lines(&["1"]));
    assert_eq!(interpreter.lookup(&"x".to_string()), Some(Value::Int(2)));
}

#[test]
fn each_kind_of_error_comes_out() {
    let cases = [
        ("x", EvalError::UnknownAtom("x".to_string())),
        ("()", EvalError::MalformedForm),
        ("(nothing)", EvalError::UnknownForm("nothing".to_string())),
        ("(let x)", EvalError::Arity),
        ("(get y)", EvalError::UnboundVariable("y".to_string())),
        ("(eq 1 1.0)", EvalError::TypeMismatch),
        ("(mod 1 0)", EvalError::Arithmetic),
    ];
    for (script, error) in cases {
        let mut interpreter = Interpreter::new(Host);
        assert_eq!(interpreter.run(script), Err(ScriptError::Eval(error)), "{}", script);
    }
}

#[test]
fn the_store_lasts_from_run_to_run() {
    let mut interpreter = Interpreter::new(Host);
    assert_eq!(interpreter.run("(let x 1.5)"), Ok(()));
    assert_eq!(interpreter.run("(print (inc x))"), Ok(()));
    assert_eq!(interpreter.output(), &lines(&["2.5"]));
}

#[test]
fn taken_output_is_gone() {
    let mut interpreter = Interpreter::new(Host);
    assert_eq!(interpreter.run("(print 1 2)"), Ok(()));
    assert_eq!(interpreter.take_output(), lines(&["1", "2"]));
    assert_eq!(interpreter.output(), &lines(&[]));
    assert_eq!(interpreter.run("(print 3)"), Ok(()));
    assert_eq!(interpreter.take_output(), lines(&["3"]));
}

#[test]
fn two_interpreters_share_nothing() {
    let mut first = Interpreter::new(Host);
    let mut second = Interpreter::new(Host);
    assert_eq!(first.run("(let x 1)"), Ok(()));
    assert_eq!(
        second.run("(get x)"),
        Err(ScriptError::Eval(EvalError::UnboundVariable("x".to_string())))
    );
    assert_eq!(first.run("(get x)"), Ok(()));
}
