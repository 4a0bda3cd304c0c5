use chainkit::text::{decimal_string, join, push_decimal, signed_decimal_string, string_less};

#[test]
fn decimal_string_has_no_leading_zeros() {
    assert_eq!(decimal_string(0), "0");
    assert_eq!(decimal_string(9), "9");
    assert_eq!(decimal_string(10), "10");
    assert_eq!(decimal_string(1_000_000), "1000000");
    assert_eq!(decimal_string(9_876_543_210), "9876543210");
    assert_eq!(decimal_string(u64::MAX), "18446744073709551615");
}

#[test]
fn decimal_string_agrees_with_the_standard_rendering() {
    let mut n: u64 = 1;
    for step in 0..200u64 {
        assert_eq!(decimal_string(n), n.to_string());
        assert_eq!(decimal_string(n - 1), (n - 1).to_string());
        n = n.wrapping_mul(31).wrapping_add(step * 7 + 1) | 1;
    }
}

#[test]
fn push_decimal_appends_to_what_is_there() {
    let mut text = String::from("slot ");
    push_decimal(&mut text, 42);
    push_decimal(&mut text, 0);
    assert_eq!(text, "slot 420");
}

#[test]
fn signed_decimal_string_marks_negative_numbers() {
    assert_eq!(signed_decimal_string(0), "0");
    assert_eq!(signed_decimal_string(17), "17");
    assert_eq!(signed_decimal_string(-17), "-17");
    assert_eq!(signed_decimal_string(i32::MAX), "2147483647");
    assert_eq!(signed_decimal_string(i32::MIN), "-2147483648");
}

#[test]
fn join_puts_the_separator_between_items_only() {
    let none: Vec<String> = Vec::new();
    assert_eq!(join(&none, ", "), "");
    assert_eq!(join(&vec!["a".to_string()], ", "), "a");
    assert_eq!(
        join(&vec!["a".to_string(), "".to_string(), "c".to_string()], "--"),
        "a----c"
    );
    assert_eq!(join(&vec!["x".to_string(), "y".to_string()], ""), "xy");
}

#[test]
fn string_less_is_the_order_of_strings() {
    let samples = [
        "", "a", "A", "aa", "ab", "b", "tx_a", "tx_b", "tx_c", "alice", "bob", "é", "e", "z",
        "한", "한국", "\u{10FFFF}", "\u{7f}", "\u{80}", "0", "10", "9",
    ];
    for left in samples {
        for right in samples {
            assert_eq!(string_less(left, right), left < right, "{left:?} < {right:?}");
        }
    }
}
