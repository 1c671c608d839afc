use treetop::text::{decimal_string, pad_left};

#[test]
fn numbers_are_written_in_decimal() {
    assert_eq!(decimal_string(0), "0");
    assert_eq!(decimal_string(7), "7");
    assert_eq!(decimal_string(10), "10");
    assert_eq!(decimal_string(1234567890), "1234567890");
    assert_eq!(decimal_string(u64::MAX), "18446744073709551615");
}

#[test]
fn text_is_filled_up_on_the_left() {
    assert_eq!(pad_left("ab", 5), "   ab");
    assert_eq!(pad_left("ab", 2), "ab");
    assert_eq!(pad_left("abc", 2), "abc");
    assert_eq!(pad_left("", 3), "   ");
    assert_eq!(pad_left("", 0), "");
    assert_eq!(pad_left("é│", 4), "  é│");
}
