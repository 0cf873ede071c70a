use win_toast_notifier::elevator::WideString;

#[test]
fn wide_string_ascii() {
    let w = WideString::new("ab".to_string());
    assert_eq!(w.units_slice(), &vec![0x61u16, 0x62, 0]);
    assert_eq!(w.source_string, "ab");
}

#[test]
fn wide_string_empty() {
    let w = WideString::new(String::new());
    assert_eq!(w.units_slice(), &vec![0u16]);
}

// A scalar above 0xFFFF becomes a surrogate pair: U+1F496 encodes as
// 0xD83D 0xDC96.
#[test]
fn wide_string_surrogate_pair() {
    let w = WideString::new("\u{1F496}".to_string());
    assert_eq!(w.units_slice(), &vec![0xD83Du16, 0xDC96, 0]);
}

// The encoding matches the standard library's UTF-16 encoder, NUL appended.
#[test]
fn wide_string_matches_std_encoder() {
    let text = "Try running as elevated \u{00E9}\u{4E16}\u{10348}";
    let w = WideString::new(text.to_string());
    let expected: Vec<u16> = text.encode_utf16().chain(std::iter::once(0)).collect();
    assert_eq!(w.units_slice(), &expected);
}
