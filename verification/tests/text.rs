use sl_interp::text::{chars_of, same_text, string_of};

#[test]
fn a_text_is_its_characters() {
    assert_eq!(chars_of(""), Vec::<char>::new());
    assert_eq!(chars_of("abc"), vec!['a', 'b', 'c']);
    assert_eq!(chars_of("é(ß)"), vec!['é', '(', 'ß', ')']);
}

#[test]
fn a_range_of_characters_is_a_string() {
    let chars = chars_of("(print été)");
    assert_eq!(string_of(&chars, 0, 0), "");
    assert_eq!(string_of(&chars, 1, 6), "print");
    assert_eq!(string_of(&chars, 7, 10), "été");
    assert_eq!(string_of(&chars, 0, chars.len()), "(print été)");
}

#[test]
fn texts_are_the_same_where_their_characters_are() {
    assert!(same_text("", ""));
    assert!(same_text("print", "print"));
    assert!(same_text("été", "été"));
    assert!(!same_text("print", "prin"));
    assert!(!same_text("prin", "print"));
    assert!(!same_text("let", "set"));
    assert!(!same_text("", "a"));
}
