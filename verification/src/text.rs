//! Moving between strings and sequences of characters.

use vstd::prelude::*;
use vstd::std_specs::iter::IteratorSpec;

verus! {

/// `String::push` of the standard library: appends one character and leaves
/// the characters before it as they were.
pub assume_specification[ std::string::String::push ](text: &mut std::string::String, c: char)
    ensures
        final(text)@ == old(text)@.push(c),
;

/// The characters of `text`, in order.
pub fn chars_of(text: &str) -> (chars: Vec<char>)
    ensures
        chars@ == text@,
{
    let mut chars: Vec<char> = Vec::new();
    let mut rest = text.chars();
    loop
        invariant
            chars@ + rest.remaining() == text@,
            rest.decrease() is Some,
        decreases rest.decrease()->0,
    {
        match rest.next() {
            Some(c) => {
                chars.push(c);
            },
            None => {
                assert(chars@ + Seq::<char>::empty() == chars@);
                return chars;
            },
        }
    }
}

/// The string made of `chars[from..to]`.
pub fn string_of(chars: &Vec<char>, from: usize, to: usize) -> (text: String)
    requires
        from <= to <= chars.len(),
    ensures
        text@ == chars@.subrange(from as int, to as int),
{
    let mut text = String::new();
    let mut at: usize = from;
    while at < to
        invariant
            from <= at <= to <= chars.len(),
            text@ == chars@.subrange(from as int, at as int),
        decreases to - at,
    {
        text.push(chars[at]);
        at += 1;
        assert(chars@.subrange(from as int, at as int) == chars@.subrange(from as int, at - 1).push(chars@[at - 1]));
    }
    text
}

/// Whether two texts hold the same characters.
pub fn same_text(left: &str, right: &str) -> (same: bool)
    ensures
        same == (left@ == right@),
{
    let mut left_rest = left.chars();
    let mut right_rest = right.chars();
    let ghost mut shared: Seq<char> = Seq::empty();
    assert(shared + left@ == left@);
    assert(shared + right@ == right@);
    loop
        invariant
            shared + left_rest.remaining() == left@,
            shared + right_rest.remaining() == right@,
            left_rest.decrease() is Some,
        decreases left_rest.decrease()->0,
    {
        let ghost left_before = left_rest.remaining();
        let ghost right_before = right_rest.remaining();
        let l = left_rest.next();
        let r = right_rest.next();
        match (l, r) {
            (Some(a), Some(b)) => {
                assert(left@[shared.len() as int] == a);
                assert(right@[shared.len() as int] == b);
                if a != b {
                    return false;
                }
                proof {
                    assert(shared.push(a) + left_rest.remaining() == shared + left_before);
                    assert(shared.push(a) + right_rest.remaining() == shared + right_before);
                    shared = shared.push(a);
                }
            },
            (None, None) => {
                assert(shared + Seq::<char>::empty() == shared);
                return true;
            },
            _ => {
                assert(left@.len() != right@.len());
                return false;
            },
        }
    }
}

} // verus!
