use breezy::escape::{
    encode_and_escape_bytes, encode_and_escape_string, escape_invalid_chars, escape_low,
    unicode_escape_replace, utf8_escape_replace,
};

#[test]
fn escape_low_markup_bytes() {
    assert_eq!(escape_low(b'&'), Some("&amp;"));
    assert_eq!(escape_low(b'\''), Some("&apos;"));
    assert_eq!(escape_low(b'"'), Some("&quot;"));
    assert_eq!(escape_low(b'<'), Some("&lt;"));
    assert_eq!(escape_low(b'>'), Some("&gt;"));
    assert_eq!(escape_low(b'a'), None);
    assert_eq!(escape_low(0x7f), None);
}

#[test]
fn unicode_escape_replace_single_chars() {
    assert_eq!(unicode_escape_replace("&"), "&amp;");
    assert_eq!(unicode_escape_replace("<"), "&lt;");
    assert_eq!(unicode_escape_replace("\u{7f}"), "&#127;");
    assert_eq!(unicode_escape_replace("é"), "&#233;");
    assert_eq!(unicode_escape_replace("\u{ffff}"), "&#65535;");
}

#[test]
fn utf8_escape_replace_runs() {
    assert_eq!(utf8_escape_replace(b"<"), b"&lt;".to_vec());
    assert_eq!(utf8_escape_replace("é".as_bytes()), b"&#233;".to_vec());
    assert_eq!(utf8_escape_replace(b"\x7f\xc3\xa9"), b"&#127;&#233;".to_vec());
    assert_eq!(utf8_escape_replace("😀".as_bytes()), b"&#128512;".to_vec());
}

#[test]
fn encode_and_escape_string_markup_and_unicode() {
    assert_eq!(encode_and_escape_string("plain text"), "plain text");
    assert_eq!(
        encode_and_escape_string("a<b>&'\"c"),
        "a&lt;b&gt;&amp;&apos;&quot;c"
    );
    assert_eq!(encode_and_escape_string("café"), "caf&#233;");
    assert_eq!(encode_and_escape_string("\u{7f}"), "&#127;");
    assert_eq!(encode_and_escape_string("\u{4e2d}\u{6587}"), "&#20013;&#25991;");
    // Characters beyond U+FFFF are not matched and stay as they are.
    assert_eq!(encode_and_escape_string("x😀y"), "x😀y");
    assert_eq!(encode_and_escape_string(""), "");
}

#[test]
fn encode_and_escape_bytes_markup_and_unicode() {
    assert_eq!(encode_and_escape_bytes(b"plain"), "plain");
    assert_eq!(encode_and_escape_bytes(b"a&b<c"), "a&amp;b&lt;c");
    assert_eq!(encode_and_escape_bytes("café".as_bytes()), "caf&#233;");
    assert_eq!(encode_and_escape_bytes("x😀y".as_bytes()), "x&#128512;y");
    assert_eq!(
        encode_and_escape_bytes("\u{7f}é\"".as_bytes()),
        "&#127;&#233;&quot;"
    );
    assert_eq!(encode_and_escape_bytes(b""), "");
}

#[test]
fn escape_invalid_chars_rewrites_control_characters() {
    assert_eq!(escape_invalid_chars("abc"), "abc");
    assert_eq!(escape_invalid_chars("a\tb\nc\rd\x7f"), "a\tb\nc\rd\x7f");
    assert_eq!(escape_invalid_chars("a\x00b"), "a\\x00b");
    assert_eq!(escape_invalid_chars("\x1f\x0b\x0c"), "\\x1f\\x0b\\x0c");
    assert_eq!(escape_invalid_chars("\u{fffe}\u{ffff}\u{fffd}"), "\\xfffe\\xffff\u{fffd}");
    assert_eq!(escape_invalid_chars("é"), "é");
}

#[test]
fn escaped_text_holds_no_raw_markup() {
    for s in ["a<b>c&d\"e'f", "caf\u{e9}\u{7f}\u{4e2d}", "x\u{1f600}y", "&amp;", ""] {
        let e = encode_and_escape_string(s);
        assert!(!e.contains(['<', '>', '"', '\'']), "{:?}", e);
        assert!(e.chars().all(|c| (c as u32) < 0x7f || (c as u32) > 0xffff), "{:?}", e);
        let b = encode_and_escape_bytes(s.as_bytes());
        assert!(!b.contains(['<', '>', '"', '\'']), "{:?}", b);
        assert!(b.chars().all(|c| (c as u32) < 0x7f), "{:?}", b);
    }
}

#[test]
fn escaped_ampersands_start_references() {
    assert_eq!(encode_and_escape_string("&amp;"), "&amp;amp;");
    assert_eq!(encode_and_escape_bytes(b"&#38;"), "&amp;#38;");
}

#[test]
fn escape_invalid_chars_is_idempotent() {
    for s in ["a\x00b\x1f", "\u{fffe}x", "plain\ttext\n", "\\x00"] {
        let once = escape_invalid_chars(s);
        assert_eq!(escape_invalid_chars(&once), once);
    }
}

#[test]
fn escapers_agree_below_u_ffff() {
    for s in ["plain", "a<b>&'\"", "caf\u{e9} \u{7f} \u{4e2d}\u{6587}", "\u{ffff}", ""] {
        assert_eq!(encode_and_escape_bytes(s.as_bytes()), encode_and_escape_string(s), "{:?}", s);
    }
    // Above U+FFFF only the byte escaper writes a reference.
    assert_ne!(encode_and_escape_bytes("\u{1f600}".as_bytes()), encode_and_escape_string("\u{1f600}"));
}
