use porc::text::{push_decimal, push_repeated, push_right_aligned};

fn decimal_string(n: u64) -> String {
    let mut out = String::new();
    push_decimal(&mut out, n);
    out
}

#[test]
fn decimal_numbers() {
    assert_eq!(decimal_string(0), "0");
    assert_eq!(decimal_string(7), "7");
    assert_eq!(decimal_string(10), "10");
    assert_eq!(decimal_string(4096), "4096");
    assert_eq!(decimal_string(u64::MAX), "18446744073709551615");
}

#[test]
fn decimal_numbers_are_appended() {
    let mut out = String::from("pid ");
    push_decimal(&mut out, 305);
    assert_eq!(out, "pid 305");
}

#[test]
fn repeating_a_character() {
    let mut out = String::from("a");
    push_repeated(&mut out, '━', 3);
    assert_eq!(out, "a━━━");
    push_repeated(&mut out, 'x', 0);
    assert_eq!(out, "a━━━");
}

#[test]
fn right_alignment() {
    let mut out = String::new();
    push_right_aligned(&mut out, "42", 5);
    assert_eq!(out, "   42");
    push_right_aligned(&mut out, "12345", 5);
    assert_eq!(out, "   4212345");
    push_right_aligned(&mut out, "1234567", 5);
    assert_eq!(out, "   42123451234567");
}

#[test]
fn right_alignment_counts_characters() {
    let mut out = String::new();
    push_right_aligned(&mut out, "━━", 4);
    assert_eq!(out, "  ━━");
}
