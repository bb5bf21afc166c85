use nullae::text::{parse_tags, wrap_text, decimal_string, signed_decimal_string, trim_str, sort_strings};
use nullae::Hashable;

#[test]
fn test_wrap_text_basic() {
    let text = "This is a very long line that needs to be wrapped";
    let wrapped = str::wrap(text, 20);

    for line in wrapped.lines() {
        assert!(line.len() <= 20, "Line '{}' exceeds max width", line);
    }

    assert!(wrapped.contains('\n'));
}

#[test]
fn test_wrap_text_short() {
    let text = "Short text";
    let wrapped = str::wrap(text, 50);
    assert_eq!(wrapped, text);
}

#[test]
fn test_wrap_text_exact_width() {
    let text = "Hello world";
    let wrapped = str::wrap(text, 11);
    assert_eq!(wrapped, "Hello world");
}

#[test]
fn test_wrap_text_long_word() {
    let text = "This verylongwordthatexceedswidth fits";
    let wrapped = str::wrap(text, 10);

    assert!(wrapped.contains("verylongwordthatexceedswidth"));
}

#[test]
fn test_wrap_text_empty() {
    let text = "";
    let wrapped = str::wrap(text, 10);
    assert_eq!(wrapped, "");
}

#[test]
fn test_wrap_text_zero_width() {
    let text = "Some text";
    let wrapped = str::wrap(text, 0);
    assert_eq!(wrapped, text);
}

#[test]
fn wrap_exact_lines() {
    let wrapped = wrap_text("This is a very long line that needs to be wrapped", 20);
    assert_eq!(wrapped, "This is a very long\nline that needs to\nbe wrapped");
}

#[test]
fn wrap_long_word_stands_alone() {
    let wrapped = wrap_text("This verylongwordthatexceedswidth fits", 10);
    assert_eq!(wrapped, "This\nverylongwordthatexceedswidth\nfits");
}

#[test]
fn wrap_collapses_whitespace() {
    let wrapped = wrap_text("  a\t\tb \n c  ", 80);
    assert_eq!(wrapped, "a b c");
}

#[test]
fn wrap_counts_characters_not_bytes() {
    let wrapped = wrap_text("ééé ééé", 7);
    assert_eq!(wrapped, "ééé ééé");
    let wrapped = wrap_text("ééé ééé", 6);
    assert_eq!(wrapped, "ééé\nééé");
}

#[test]
fn wrap_keeps_words_law_example() {
    let text = "one two  three\tfour five six seven";
    let wrapped = wrap_text(text, 9);
    let before: Vec<&str> = text.split_whitespace().collect();
    let after: Vec<&str> = wrapped.split_whitespace().collect();
    assert_eq!(before, after);
    for line in wrapped.lines() {
        assert!(line.chars().count() <= 9);
    }
}

#[test]
fn wrap_string_impl_matches_str() {
    let s = String::from("alpha beta gamma");
    assert_eq!(s.wrap(10), "alpha beta\ngamma");
}

#[test]
fn hash_of_text_is_sha256_hex() {
    assert_eq!(
        "abc".hash(),
        "ba7816bf8f01cfea414140de5dae2223b00361a396177a9cb410ff61f20015ad"
    );
    assert_eq!(String::from("abc").hash(), "abc".hash());
}

#[test]
fn tags_are_split_trimmed_and_filtered() {
    let tags = parse_tags(" web, k8s ,, prod ,");
    assert_eq!(tags, vec!["web".to_string(), "k8s".to_string(), "prod".to_string()]);
    assert!(parse_tags("").is_empty());
    assert!(parse_tags(" , ").is_empty());
}

#[test]
fn decimal_formatting() {
    assert_eq!(decimal_string(0), "0");
    assert_eq!(decimal_string(1234567890), "1234567890");
    assert_eq!(signed_decimal_string(-42), "-42");
    assert_eq!(signed_decimal_string(i64::MIN), "-9223372036854775808");
}

#[test]
fn trim_removes_unicode_whitespace() {
    assert_eq!(trim_str("\u{3000} hi \u{a0}"), "hi");
}

#[test]
fn strings_sort_by_character_order() {
    let v = vec!["eth1".to_string(), "docker0".to_string(), "br-1".to_string(), "eth0".to_string()];
    assert_eq!(sort_strings(v), vec!["br-1", "docker0", "eth0", "eth1"]);
}
