use watchtower::table::{Table, TextSet};
use watchtower::text;

#[test]
fn white_space_is_that_of_unicode() {
    for n in 0..=0x10FFFFu32 {
        if let Some(c) = char::from_u32(n) {
            assert_eq!(text::space(c), c.is_whitespace(), "U+{:04X}", n);
        }
    }
}

#[test]
fn texts_are_cut_as_std_cuts_them() {
    for s in [
        "", "a", "  a b  c ", "a\nb\r\nc", "a\n\n", "\n", "x=1=2", "\r", "a\r", "ünï\tcödé\u{3000}x",
    ] {
        let words: Vec<&str> = s.split_whitespace().collect();
        assert_eq!(text::split_words(s), words);
        let lines: Vec<&str> = s.lines().collect();
        assert_eq!(text::split_lines(s), lines);
        let parts: Vec<&str> = s.split('=').collect();
        assert_eq!(text::split_char(s, '='), parts);
        assert_eq!(text::trimmed(s), s.trim());
        assert_eq!(
            text::split_once(s, "="),
            s.split_once("=").map(|(a, b)| (a.to_string(), b.to_string()))
        );
        assert_eq!(text::strip_prefix(s, "a"), s.strip_prefix("a").map(String::from));
        assert_eq!(text::strip_suffix(s, "c"), s.strip_suffix("c").map(String::from));
        assert_eq!(text::contains_text(s, "b"), s.contains("b"));
        assert_eq!(text::replaced(s, "a", "aa"), s.replace("a", "aa"));
    }
}

#[test]
fn numbers_are_read_as_std_reads_them() {
    for s in [
        "", "0", "-0", "+7", "007", "-12", "18446744073709551615", "18446744073709551616",
        "9223372036854775807", "-9223372036854775808", "-9223372036854775809", "1a", " 1", "+", "-",
        "١",
    ] {
        assert_eq!(text::parse_u64(s), s.parse::<u64>().ok(), "{:?}", s);
        assert_eq!(text::parse_i64(s), s.parse::<i64>().ok(), "{:?}", s);
    }
    assert_eq!(text::parse_unsigned("1F90", 16, 65535), Some(8080));
    assert_eq!(text::parse_unsigned("10000", 16, 65535), None);
}

#[test]
fn numbers_are_written_as_std_writes_them() {
    for n in [0u64, 7, 10, 12345, u64::MAX] {
        assert_eq!(text::dec_u64(n), n.to_string());
        assert_eq!(text::hex_u64(n), format!("{:x}", n));
        assert_eq!(text::pad_zeros(&text::hex_u64(n), 16), format!("{:016x}", n));
    }
    for n in [0i64, -1, 42, i64::MIN, i64::MAX] {
        assert_eq!(text::dec_i64(n), n.to_string());
        assert_eq!(text::pad_i64(n, 4), format!("{:04}", n));
    }
}

#[test]
fn tables_keep_one_value_per_key() {
    let mut t: Table<String, i64> = Table::new();
    t.set("a".into(), 1);
    t.set("b".into(), 2);
    t.set("a".into(), 3);
    assert_eq!(t.get(&"a".to_string()), Some(&3));
    assert_eq!(t.entries.len(), 2);
    t.remove(&"a".to_string());
    assert_eq!(t.get(&"a".to_string()), None);
    assert_eq!(t.get(&"b".to_string()), Some(&2));
    let mut s = TextSet::new();
    assert!(s.insert("x"));
    assert!(!s.insert("x"));
    assert!(s.contains("x") && !s.contains("y"));
}
