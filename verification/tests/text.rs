use plexus_listen::text::{
    append_decimal, append_hex4, contains, parse_index, split_commas, split_trimmed, text_at_most,
    trim,
};

#[test]
fn containing() {
    assert!(contains("Wireless DJI Mic", "DJI"));
    assert!(!contains("Wireless Dji Mic", "DJI"));
    assert!(contains("abc", ""));
    assert!(contains("", ""));
    assert!(!contains("", "a"));
    assert!(contains("aab", "ab"));
    assert!(!contains("ab", "abc"));
    assert!(contains("größe", "öß"));
}

#[test]
fn trimming_drops_unicode_white_space() {
    assert_eq!(trim("  host\t\n"), "host");
    assert_eq!(trim(" \u{a0}\u{3000}a b\u{2003}"), "a b");
    assert_eq!(trim("   "), "");
    assert_eq!(trim(""), "");
}

#[test]
fn white_space_is_that_of_std() {
    for code in 0..=0x10FFFFu32 {
        if let Some(c) = char::from_u32(code) {
            if c.is_whitespace() || code < 0x3100 {
                let text = format!("{}x{}", c, c);
                assert_eq!(trim(&text), text.trim());
            }
        }
    }
}

#[test]
fn splitting() {
    assert_eq!(split_commas("a,b"), vec!["a", "b"]);
    assert_eq!(split_commas(""), vec![""]);
    assert_eq!(split_commas(",x,,"), vec!["", "x", "", ""]);
    assert_eq!(split_trimmed(" host , guest"), vec!["host", "guest"]);
    assert_eq!(split_trimmed("é , ü,"), vec!["é", "ü", ""]);
}

#[test]
fn reading_indices() {
    for text in [
        "0", "7", "65535", "65536", "99999999999999999999", "007", "+5", "+", "-1", "-0", "", " 1",
        "1a", "a", "+0000000065535", "++1", "1+", "٣",
    ] {
        assert_eq!(parse_index(text), text.parse::<u16>().ok(), "{}", text);
    }
    for index in 0..=u16::MAX {
        assert_eq!(parse_index(&index.to_string()), Some(index));
    }
}

#[test]
fn numbers_in_decimal_and_hexadecimal() {
    for n in [0u64, 9, 10, 42, 100, 65535, u64::MAX] {
        let mut text = String::from("n=");
        append_decimal(&mut text, n);
        assert_eq!(text, format!("n={}", n));
    }
    for n in [0u16, 0x42, 0x2CA3, 0xFFFF, 0x0ABC] {
        let mut text = String::new();
        append_hex4(&mut text, n);
        assert_eq!(text, format!("{:04x}", n));
    }
}

#[test]
fn alphabetical_order_is_that_of_strings() {
    let words = ["", "a", "ab", "b", "B", "ä", "z", "\u{10000}", "\u{ffff}", "aa"];
    for a in words {
        for b in words {
            assert_eq!(text_at_most(a, b), a.to_string() <= b.to_string(), "{} {}", a, b);
        }
    }
}
