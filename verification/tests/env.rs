use sl_interp::env::Environment;
use sl_interp::value::Value;

fn name(text: &str) -> String {
    text.to_string()
}

#[test]
fn a_new_store_holds_nothing() {
    let env = Environment::new();
    assert_eq!(env.get(&name("x")), None);
    assert_eq!(env.get(&name("")), None);
}

#[test]
fn a_bound_name_is_found() {
    let mut env = Environment::new();
    env.insert(&name("x"), Value::Int(1));
    env.insert(&name("y"), Value::Bool(true));
    assert_eq!(env.get(&name("x")), Some(Value::Int(1)));
    assert_eq!(env.get(&name("y")), Some(Value::Bool(true)));
    assert_eq!(env.get(&name("z")), None);
}

#[test]
fn binding_again_replaces() {
    let mut env = Environment::new();
    env.insert(&name("x"), Value::Int(1));
    env.insert(&name("y"), Value::Int(2));
    env.insert(&name("x"), Value::String("new".to_string()));
    assert_eq!(env.get(&name("x")), Some(Value::String("new".to_string())));
    assert_eq!(env.get(&name("y")), Some(Value::Int(2)));
}

#[test]
fn binding_the_same_twice_is_binding_once() {
    let mut once = Environment::new();
    once.insert(&name("x"), Value::Int(5));
    let mut twice = Environment::new();
    twice.insert(&name("x"), Value::Int(5));
    twice.insert(&name("x"), Value::Int(5));
    assert_eq!(once.get(&name("x")), twice.get(&name("x")));
    assert_eq!(once.get(&name("y")), twice.get(&name("y")));
}
