use pln_parse::error::byte_offset_to_position;

#[test]
fn byte_offset_single_line() {
    assert_eq!(byte_offset_to_position("(a|b/c)", 4), (1, 5));
}

#[test]
fn byte_offset_multiline() {
    assert_eq!(byte_offset_to_position("abc\ndef\nghi", 5), (2, 2));
}
