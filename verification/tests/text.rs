use formula_tree::text::{byte_len, chars_of};

#[test]
fn characters_come_out_in_order() {
    assert_eq!(chars_of("a∧b"), vec!['a', '∧', 'b']);
    assert!(chars_of("").is_empty());
}

#[test]
fn length_is_counted_in_bytes() {
    assert_eq!(byte_len(""), 0);
    assert_eq!(byte_len("abc"), 3);
    assert_eq!(byte_len("é"), 2);
    assert_eq!(byte_len("∀x"), 4);
}
