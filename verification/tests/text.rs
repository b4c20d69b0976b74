use rsahp::text::{contains, int_to_string, join, parse_i32, parse_u32, replace, split_chars, str_eq, trim};

#[test]
fn replace_removes_every_occurrence_left_to_right() {
    assert_eq!(replace("http://h/api/documents", "/documents", ""), "http://h/api");
    assert_eq!(replace("aaa", "aa", "b"), "ba");
    assert_eq!(replace("a/documents/b/documents", "/documents", "X"), "aX/bX");
    assert_eq!(replace("none here", "zz", "y"), "none here");
}

#[test]
fn trim_removes_surrounding_whitespace() {
    assert_eq!(trim("  Cost \t\n"), "Cost");
    assert_eq!(trim("   "), "");
    assert_eq!(trim("a b"), "a b");
}

#[test]
fn join_puts_separator_between_parts() {
    let parts = vec!["Alpha".to_string(), "Beta".to_string(), "Admin".to_string()];
    assert_eq!(join(&parts, ", "), "Alpha, Beta, Admin");
    assert_eq!(join(&Vec::new(), ", "), "");
    assert_eq!(join(&vec!["x".to_string()], ", "), "x");
}

#[test]
fn contains_finds_substrings() {
    assert!(contains("{\"ok\":false}", "\"ok\":false"));
    assert!(!contains("{\"ok\":true}", "\"ok\":false"));
    assert!(contains("abc", ""));
    assert!(!contains("", "a"));
}

#[test]
fn parse_i32_reads_signed_decimals() {
    assert_eq!(parse_i32("42"), Some(42));
    assert_eq!(parse_i32("-7"), Some(-7));
    assert_eq!(parse_i32("+7"), Some(7));
    assert_eq!(parse_i32("2147483647"), Some(i32::MAX));
    assert_eq!(parse_i32("-2147483648"), Some(i32::MIN));
    assert_eq!(parse_i32("2147483648"), None);
    assert_eq!(parse_i32("12a"), None);
    assert_eq!(parse_i32(""), None);
    assert_eq!(parse_i32("-"), None);
    assert_eq!(parse_i32(" 1"), None);
    assert_eq!(parse_i32("99999999999999999999x"), None);
}

#[test]
fn parse_u32_reads_unsigned_decimals() {
    let v = |s: &str| s.chars().collect::<Vec<char>>();
    assert_eq!(parse_u32(&v("4294967295")), Some(u32::MAX));
    assert_eq!(parse_u32(&v("4294967296")), None);
    assert_eq!(parse_u32(&v("+3")), Some(3));
    assert_eq!(parse_u32(&v("-3")), None);
    assert_eq!(parse_u32(&v("x")), None);
}

#[test]
fn split_chars_keeps_empty_pieces() {
    let v: Vec<char> = "1..2".chars().collect();
    let pieces = split_chars(&v, '.');
    let texts: Vec<String> = pieces.iter().map(|p| p.iter().collect()).collect();
    assert_eq!(texts, vec!["1".to_string(), "".to_string(), "2".to_string()]);
    assert_eq!(split_chars(&Vec::new(), '.').len(), 1);
}

#[test]
fn int_to_string_and_str_eq() {
    assert_eq!(int_to_string(-120), "-120");
    assert_eq!(int_to_string(0), "0");
    assert_eq!(int_to_string(i64::MIN), "-9223372036854775808");
    assert!(str_eq("abc", "abc"));
    assert!(!str_eq("abc", "abd"));
}

#[test]
fn trimming_follows_the_unicode_whitespace_list() {
    assert_eq!(trim("\u{3000}\u{85}a b\u{2029}\t"), "a b");
    assert_eq!(trim("\u{200B}x\u{200B}"), "\u{200B}x\u{200B}");
}

#[test]
fn trimming_agrees_with_std_on_every_code_point() {
    for x in 0u32..0x3100 {
        if let Some(c) = char::from_u32(x) {
            let s = format!("{c}a{c}");
            assert_eq!(trim(&s), s.trim(), "code point {x:#x}");
        }
    }
}
