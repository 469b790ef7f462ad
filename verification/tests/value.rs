use sl_interp::floats::{FloatArith, FloatUnit};
use sl_interp::value::{checked_int_rem, float_equal, Value};

struct Host;

impl FloatArith for Host {
    fn parse(&self, text: &str) -> Option<u64> {
        text.parse::<f64>().ok().map(f64::to_bits)
    }

    fn render(&self, bits: u64) -> String {
        f64::from_bits(bits).to_string()
    }

    fn widen(&self, value: i64) -> u64 {
        (value as f64).to_bits()
    }

    fn rem(&self, left: u64, right: u64) -> u64 {
        (f64::from_bits(left) % f64::from_bits(right)).to_bits()
    }

    fn successor(&self, bits: u64) -> u64 {
        (f64::from_bits(bits) + 1.0).to_bits()
    }
}

fn render(value: &Value) -> String {
    value.render(&mut FloatUnit::new(Host))
}

#[test]
fn values_are_written_in_their_own_way() {
    assert_eq!(render(&Value::Int(-12)), "-12");
    assert_eq!(render(&Value::Float(2.5f64.to_bits())), "2.5");
    assert_eq!(render(&Value::Float(3.0f64.to_bits())), "3");
    assert_eq!(render(&Value::String("as it is".to_string())), "as it is");
    assert_eq!(render(&Value::Bool(true)), "true");
    assert_eq!(render(&Value::Bool(false)), "false");
    assert_eq!(render(&Value::Null), "null");
    assert_eq!(render(&Value::Void), "void");
}

#[test]
fn a_clone_is_the_same_value() {
    let values = [
        Value::Int(3),
        Value::Float(1.5f64.to_bits()),
        Value::String("s".to_string()),
        Value::Bool(true),
        Value::Null,
        Value::Void,
    ];
    for value in values {
        assert_eq!(value.clone(), value);
    }
}

#[test]
fn values_of_one_kind_compare() {
    assert_eq!(Value::Int(1).equals(&Value::Int(1)), Some(true));
    assert_eq!(Value::Int(1).equals(&Value::Int(2)), Some(false));
    assert_eq!(
        Value::String("a".to_string()).equals(&Value::String("a".to_string())),
        Some(true)
    );
    assert_eq!(
        Value::String("a".to_string()).equals(&Value::String("b".to_string())),
        Some(false)
    );
    assert_eq!(Value::Bool(true).equals(&Value::Bool(false)), Some(false));
    assert_eq!(Value::Null.equals(&Value::Null), Some(true));
    assert_eq!(Value::Void.equals(&Value::Void), Some(true));
}

#[test]
fn values_of_two_kinds_do_not_compare() {
    assert_eq!(Value::Int(1).equals(&Value::Float(1.0f64.to_bits())), None);
    assert_eq!(Value::Float(1.0f64.to_bits()).equals(&Value::Int(1)), None);
    assert_eq!(Value::Null.equals(&Value::Void), None);
    assert_eq!(Value::Bool(false).equals(&Value::Int(0)), None);
    assert_eq!(Value::String("1".to_string()).equals(&Value::Int(1)), None);
}

#[test]
fn doubles_compare_as_numbers() {
    let samples = [
        0.0,
        -0.0,
        1.0,
        -1.0,
        1.5,
        f64::MIN_POSITIVE,
        f64::MAX,
        f64::MIN,
        f64::INFINITY,
        f64::NEG_INFINITY,
        f64::NAN,
        -f64::NAN,
        f64::EPSILON,
        5e-324,
    ];
    for a in samples {
        for b in samples {
            assert_eq!(float_equal(a.to_bits(), b.to_bits()), a == b, "{} {}", a, b);
        }
    }
    assert!(!float_equal(0x7ff0_0000_0000_0001, 0x7ff0_0000_0000_0001));
    assert!(!float_equal(0xfff8_0000_0000_0000, 0xfff8_0000_0000_0000));
    assert!(float_equal(0x8000_0000_0000_0000, 0));
}

#[test]
fn the_integer_remainder_is_that_of_the_machine() {
    let samples = [0, 1, -1, 2, -2, 3, -3, 7, -7, 10, 100, i64::MAX, i64::MIN, i64::MIN + 1];
    for a in samples {
        for b in samples {
            assert_eq!(checked_int_rem(a, b), a.checked_rem(b), "{} {}", a, b);
        }
    }
    assert_eq!(checked_int_rem(7, 3), Some(1));
    assert_eq!(checked_int_rem(-7, 3), Some(-1));
    assert_eq!(checked_int_rem(7, 0), None);
    assert_eq!(checked_int_rem(i64::MIN, -1), None);
}
