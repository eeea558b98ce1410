use traversal_core::text::{append_decimal, chars_of, text_eq};

#[test]
fn decimals() {
    for n in [0u64, 7, 10, 42, 1000, 1234567890, u64::MAX] {
        let mut s = String::from("x");
        append_decimal(&mut s, n);
        assert_eq!(s, format!("x{}", n));
    }
}

#[test]
fn equal_texts() {
    assert!(text_eq("abc", "abc"));
    assert!(!text_eq("abc", "abd"));
    assert!(!text_eq("abc", "ab"));
    assert!(text_eq("", ""));
    assert!(text_eq("é", "é"));
}

#[test]
fn characters() {
    assert_eq!(chars_of("aé\u{3000}"), vec!['a', 'é', '\u{3000}']);
}
