use sway::text::{
    chars_of, copy_opt, decimal, hex, is_before, join, join3, padded_decimal, parse_i64,
    parse_up_to, same, same_opt, signed_decimal, text_of, to_lower, trim,
};
use sway::uidset::UidSet;

#[test]
fn numbers_are_written_and_read() {
    assert_eq!(decimal(0), "0");
    assert_eq!(decimal(u64::MAX), "18446744073709551615");
    assert_eq!(signed_decimal(i64::MIN), "-9223372036854775808");
    assert_eq!(padded_decimal(7, 3), "007");
    assert_eq!(padded_decimal(1234, 3), "1234");
    assert_eq!(hex(255, 4), "00FF");
    assert_eq!(parse_i64("-42"), Some(-42));
    assert_eq!(parse_i64("+42"), Some(42));
    assert_eq!(parse_i64("9223372036854775808"), None);
    assert_eq!(parse_i64("-9223372036854775808"), Some(i64::MIN));
    assert_eq!(parse_i64(""), None);
    assert_eq!(parse_i64("4x"), None);
    assert_eq!(parse_up_to("255", 255), Some(255));
    assert_eq!(parse_up_to("256", 255), None);
    assert_eq!(parse_up_to("-1", 255), None);
}

#[test]
fn texts_are_compared_and_cut() {
    assert!(same("añ", "añ"));
    assert!(!same("a", "b"));
    assert!(is_before("a", "b"));
    assert!(is_before("a", "ab"));
    assert!(!is_before("b", "a"));
    assert!(!is_before("a", "a"));
    assert_eq!(to_lower("ÀB"), "àb");
    assert_eq!(trim("\t x y \n"), "x y");
    assert_eq!(join("a", "b"), "ab");
    assert_eq!(join3("a", "b", "c"), "abc");
    let v = chars_of("hello");
    assert_eq!(text_of(&v, 1, 3), "el");
    let some = Some("x".to_string());
    assert_eq!(copy_opt(&some), some);
    assert!(same_opt(&some, &copy_opt(&some)));
    assert!(!same_opt(&some, &None));
}

#[test]
fn a_set_holds_each_uid_once() {
    let mut s = UidSet::new();
    assert!(s.insert("a".to_string()));
    assert!(!s.insert("a".to_string()));
    assert!(s.insert("b".to_string()));
    assert_eq!(s.len(), 2);
    assert!(s.contains("a"));
    assert!(s.remove("a"));
    assert!(!s.remove("a"));
    assert!(!s.contains("a"));
    assert_eq!(s.at(0), "b");
    assert_eq!(s.clone().len(), 1);
}
