use sl_interp::floats::{FloatArith, FloatUnit};

struct Host;

impl FloatArith for Host {
    fn parse(&self, text: &str) -> Option<u64> {
        text.parse::<f64>().ok().map(f64::to_bits)
    }

    fn render(&self, bits: u64) -> String {
        f64::from_bits(bits).to_string()
    }

    fn widen(&self, value: i64) -> u64 {
        (value as f64).to_bits()
    }

    fn rem(&self, left: u64, right: u64) -> u64 {
        (f64::from_bits(left) % f64::from_bits(right)).to_bits()
    }

    fn successor(&self, bits: u64) -> u64 {
        (f64::from_bits(bits) + 1.0).to_bits()
    }
}

#[test]
fn unit_hands_on_what_the_host_answers() {
    let mut unit = FloatUnit::new(Host);
    let half = unit.parse("2.5").unwrap();
    assert_eq!(unit.render(half), "2.5");
    let next = unit.successor(half);
    assert_eq!(unit.render(next), "3.5");
    assert_eq!(unit.parse("abc"), None);
}
