use fastwarc_grpc::text::{parse_usize, push_decimal, same_text, strip_prefix, to_chars};

#[test]
fn numbers_are_written_in_decimal() {
    for value in [0usize, 7, 10, 4294967295, usize::MAX] {
        let mut text = "n=".to_owned();
        push_decimal(&mut text, value);
        assert_eq!(text, format!("n={value}"));
    }
}

#[test]
fn numbers_are_read_as_std_reads_them() {
    for text in ["", "+", "0", "+0", "12", "++1", "1+", "-3", "18446744073709551615", "x", "٣"] {
        assert_eq!(parse_usize(text), text.parse::<usize>().ok(), "text {text:?}");
    }
    assert_eq!(parse_usize("18446744073709551616"), None);
}

#[test]
fn prefixes_are_stripped() {
    assert_eq!(strip_prefix("unix:/a", "unix:"), Some("/a"));
    assert_eq!(strip_prefix("unix:", "unix:"), Some(""));
    assert_eq!(strip_prefix("uni", "unix:"), None);
    assert_eq!(strip_prefix("größe", "grö"), Some("ße"));
    assert_eq!(strip_prefix("abc", ""), Some("abc"));
}

#[test]
fn texts_are_compared_in_full() {
    assert!(same_text("größe", "größe"));
    assert!(!same_text("größe", "größ"));
    assert!(!same_text("größ", "größe"));
    assert!(same_text("", ""));
    assert_eq!(to_chars("aü"), ['a', 'ü']);
}
