//! The values that expressions evaluate to.

use vstd::prelude::*;
use crate::floats::{Exchange, FloatArith, FloatUnit, Query, Reply};
use crate::number::{int_text, render_int};

verus! {

/// A runtime value. A double is held as its sixty-four bits.
#[derive(Debug, PartialEq, Eq)]
pub enum Value {
    Int(i64),
    Float(u64),
    String(String),
    Bool(bool),
    Null,
    /// What a statement yields that has no result of its own.
    Void,
}

/// The mathematical value of a [`Value`].
pub enum ValueView {
    Int(i64),
    Float(u64),
    String(Seq<char>),
    Bool(bool),
    Null,
    Void,
}

impl View for Value {
    type V = ValueView;

    open spec fn view(&self) -> ValueView {
        match self {
            Value::Int(i) => ValueView::Int(*i),
            Value::Float(bits) => ValueView::Float(*bits),
            Value::String(text) => ValueView::String(text@),
            Value::Bool(b) => ValueView::Bool(*b),
            Value::Null => ValueView::Null,
            Value::Void => ValueView::Void,
        }
    }
}

impl Clone for Value {
    fn clone(&self) -> (copy: Self)
        ensures
            copy@ == self@,
    {
        match self {
            Value::Int(i) => Value::Int(*i),
            Value::Float(bits) => Value::Float(*bits),
            Value::String(text) => Value::String(text.clone()),
            Value::Bool(b) => Value::Bool(*b),
            Value::Null => Value::Null,
            Value::Void => Value::Void,
        }
    }
}

/// The bits of a double that is no number.
pub open spec fn is_nan(bits: u64) -> bool {
    bits & 0x7fff_ffff_ffff_ffff > 0x7ff0_0000_0000_0000
}

/// Equality of two doubles: no number equals nothing, the two zeros equal
/// each other, and any other double equals itself alone.
pub open spec fn float_eq(left: u64, right: u64) -> bool {
    !is_nan(left) && !is_nan(right) && (left == right || (left | right) & 0x7fff_ffff_ffff_ffff
        == 0)
}

/// Whether two values of one kind are equal; `None` for two of different
/// kinds, which cannot be compared.
pub open spec fn compare(left: ValueView, right: ValueView) -> Option<bool> {
    match (left, right) {
        (ValueView::Int(l), ValueView::Int(r)) => Some(l == r),
        (ValueView::Float(l), ValueView::Float(r)) => Some(float_eq(l, r)),
        (ValueView::String(l), ValueView::String(r)) => Some(l == r),
        (ValueView::Bool(l), ValueView::Bool(r)) => Some(l == r),
        (ValueView::Null, ValueView::Null) => Some(true),
        (ValueView::Void, ValueView::Void) => Some(true),
        _ => None,
    }
}

/// The remainder of `left` divided by `right`, with the sign of `left`.
pub open spec fn int_rem(left: int, right: int) -> int
    recommends
        right != 0,
{
    let divisor = if right < 0 {
        -right
    } else {
        right
    };
    if left < 0 {
        -((-left) % divisor)
    } else {
        left % divisor
    }
}

/// Whether the integer remainder of `left` by `right` can be taken: not by
/// zero, and not of the least integer by minus one.
pub open spec fn int_rem_exists(left: i64, right: i64) -> bool {
    right != 0 && !(left == i64::MIN && right == -1)
}

/// What a value other than a double is written as: an integer in base ten,
/// a string as it is, and `true`, `false`, `null` or `void` for the rest.
pub open spec fn plain_text(value: ValueView) -> Seq<char> {
    match value {
        ValueView::Int(i) => int_text(i as int),
        ValueView::Float(_) => Seq::empty(),
        ValueView::String(text) => text,
        ValueView::Bool(b) => if b {
            "true"@
        } else {
            "false"@
        },
        ValueView::Null => "null"@,
        ValueView::Void => "void"@,
    }
}

impl Value {
    /// Compares two values of one kind.
    pub fn equals(&self, other: &Value) -> (same: Option<bool>)
        ensures
            same == compare(self@, other@),
    {
        match (self, other) {
            (Value::Int(l), Value::Int(r)) => Some(*l == *r),
            (Value::Float(l), Value::Float(r)) => Some(float_equal(*l, *r)),
            (Value::String(l), Value::String(r)) => Some(*l == *r),
            (Value::Bool(l), Value::Bool(r)) => Some(*l == *r),
            (Value::Null, Value::Null) => Some(true),
            (Value::Void, Value::Void) => Some(true),
            _ => None,
        }
    }

    /// Writes the value out. A double is written by the host; nothing else
    /// asks it anything.
    pub fn render<F: FloatArith>(&self, floats: &mut FloatUnit<F>) -> (text: String)
        ensures
            match self@ {
                ValueView::Float(bits) => final(floats).heard() == old(floats).heard().push(
                    Exchange { query: Query::Render(bits), reply: Reply::Text(text@) },
                ),
                _ => final(floats).heard() == old(floats).heard() && text@ == plain_text(self@),
            },
    {
        match self {
            Value::Int(i) => render_int(*i),
            Value::Float(bits) => floats.render(*bits),
            Value::String(text) => text.clone(),
            Value::Bool(b) => if *b {
                "true".to_string()
            } else {
                "false".to_string()
            },
            Value::Null => "null".to_string(),
            Value::Void => "void".to_string(),
        }
    }
}

/// The remainder of two integers, where it can be taken.
pub fn checked_int_rem(left: i64, right: i64) -> (rest: Option<i64>)
    ensures
        rest == if int_rem_exists(left, right) {
            Some(int_rem(left as int, right as int) as i64)
        } else {
            None::<i64>
        },
        int_rem_exists(left, right) ==> i64::MIN <= int_rem(left as int, right as int) <= i64::MAX,
{
    proof {
        if int_rem_exists(left, right) {
            let x = left as int;
            let d = right as int;
            let divisor: int = if d < 0 {
                -d
            } else {
                d
            };
            let dividend: int = if x < 0 {
                -x
            } else {
                x
            };
            vstd::arithmetic::div_mod::lemma_mod_pos_bound(dividend, divisor);
            assert(x * -1 == -x);
            assert(d * -1 == -d);
            assert(0 <= dividend % divisor < divisor);
            if x == 0 {
                vstd::arithmetic::div_mod::lemma_small_mod(0, divisor as nat);
                assert(int_rem(x, d) == 0);
            } else if x > 0 && d > 0 {
                assert(int_rem(x, d) == x % d);
            } else if x < 0 && d < 0 {
                assert(int_rem(x, d) == ((x * -1) % (d * -1)) * -1);
            } else if x < 0 {
                assert(int_rem(x, d) == ((x * -1) % d) * -1);
            } else {
                assert(int_rem(x, d) == x % (d * -1));
            }
        }
    }
    left.checked_rem(right)
}

/// Compares two doubles, given as their bits.
pub fn float_equal(left: u64, right: u64) -> (same: bool)
    ensures
        same == float_eq(left, right),
{
    let left_nan = left & 0x7fff_ffff_ffff_ffff > 0x7ff0_0000_0000_0000;
    let right_nan = right & 0x7fff_ffff_ffff_ffff > 0x7ff0_0000_0000_0000;
    !left_nan && !right_nan && (left == right || (left | right) & 0x7fff_ffff_ffff_ffff == 0)
}

} // verus!
