use collection::text::{append_decimal, decimal_string, prefixed};

#[test]
fn decimal_of_zero_is_one_digit() {
    assert_eq!(decimal_string(0), "0");
}

#[test]
fn decimal_has_no_leading_zero() {
    assert_eq!(decimal_string(7), "7");
    assert_eq!(decimal_string(10), "10");
    assert_eq!(decimal_string(1203), "1203");
}

#[test]
fn decimal_of_the_largest_number() {
    assert_eq!(decimal_string(u64::MAX), "18446744073709551615");
}

#[test]
fn append_decimal_keeps_what_was_there() {
    let mut s = String::from("id ");
    append_decimal(&mut s, 42);
    assert_eq!(s, "id 42");
}

#[test]
fn prefixed_puts_the_prefix_first() {
    assert_eq!(prefixed("a: ", "b"), "a: b");
    assert_eq!(prefixed("", ""), "");
}
