use packet_parsers::text::{
    contains_chars, decimal_chars, parse_unsigned_chars, remove_char_chars, split_chars,
    trim_chars, IntErrorKind,
};

fn chars(s: &str) -> Vec<char> {
    s.chars().collect()
}

fn string(v: &[char]) -> String {
    v.iter().collect()
}

#[test]
fn trim_removes_unicode_white_space() {
    assert_eq!(string(&trim_chars(&chars("  \t hi there \u{3000}\r\n"))), "hi there");
    assert_eq!(string(&trim_chars(&chars("\u{85}\u{a0}x\u{2028}"))), "x");
    assert_eq!(string(&trim_chars(&chars(" \n\t "))), "");
    assert_eq!(string(&trim_chars(&chars("a b"))), "a b");
}

#[test]
fn decimal_rendering() {
    assert_eq!(string(&decimal_chars(0)), "0");
    assert_eq!(string(&decimal_chars(7)), "7");
    assert_eq!(string(&decimal_chars(65535)), "65535");
    assert_eq!(string(&decimal_chars(u64::MAX)), "18446744073709551615");
}

#[test]
fn parse_follows_from_str_rules() {
    assert_eq!(parse_unsigned_chars(&chars("42"), 65535), Ok(42));
    assert_eq!(parse_unsigned_chars(&chars("+42"), 65535), Ok(42));
    assert_eq!(parse_unsigned_chars(&chars("007"), 65535), Ok(7));
    assert_eq!(parse_unsigned_chars(&chars(""), 65535), Err(IntErrorKind::Empty));
    assert_eq!(parse_unsigned_chars(&chars("+"), 65535), Err(IntErrorKind::InvalidDigit));
    assert_eq!(parse_unsigned_chars(&chars("-"), 65535), Err(IntErrorKind::InvalidDigit));
    assert_eq!(parse_unsigned_chars(&chars("-5"), 65535), Err(IntErrorKind::InvalidDigit));
    assert_eq!(parse_unsigned_chars(&chars("12x"), 65535), Err(IntErrorKind::InvalidDigit));
    assert_eq!(parse_unsigned_chars(&chars(" 1"), 65535), Err(IntErrorKind::InvalidDigit));
    assert_eq!(parse_unsigned_chars(&chars("65535"), 65535), Ok(65535));
    assert_eq!(parse_unsigned_chars(&chars("65536"), 65535), Err(IntErrorKind::PosOverflow));
    assert_eq!(parse_unsigned_chars(&chars("99999x"), 65535), Err(IntErrorKind::PosOverflow));
    assert_eq!(
        parse_unsigned_chars(&chars("4294967295"), u32::MAX),
        Ok(u32::MAX)
    );
    assert_eq!(
        parse_unsigned_chars(&chars("4294967296"), u32::MAX),
        Err(IntErrorKind::PosOverflow)
    );
}

#[test]
fn parse_agrees_with_std() {
    for s in ["0", "+9", "-1", "", "+", "abc", "65535", "65536", "1a", "070", "99999x", "é"] {
        let mine = parse_unsigned_chars(&chars(s), 65535);
        let std = s.parse::<u16>();
        match (mine, std) {
            (Ok(a), Ok(b)) => assert_eq!(a, b as u32),
            (Err(IntErrorKind::Empty), Err(e)) => {
                assert_eq!(*e.kind(), std::num::IntErrorKind::Empty)
            }
            (Err(IntErrorKind::InvalidDigit), Err(e)) => {
                assert_eq!(*e.kind(), std::num::IntErrorKind::InvalidDigit)
            }
            (Err(IntErrorKind::PosOverflow), Err(e)) => {
                assert_eq!(*e.kind(), std::num::IntErrorKind::PosOverflow)
            }
            (m, s) => panic!("disagree: {:?} {:?}", m, s),
        }
    }
}

#[test]
fn decimal_then_parse_round_trips() {
    for n in [0u64, 1, 9, 10, 99, 100, 4095, 65535] {
        assert_eq!(parse_unsigned_chars(&decimal_chars(n), 65535), Ok(n as u32));
    }
}

#[test]
fn split_keeps_empty_pieces() {
    let pieces: Vec<String> = split_chars(&chars("a,,b,"), ',').iter().map(|p| string(p)).collect();
    assert_eq!(pieces, vec!["a", "", "b", ""]);
    let pieces: Vec<String> = split_chars(&chars(""), ',').iter().map(|p| string(p)).collect();
    assert_eq!(pieces, vec![""]);
    let pieces: Vec<String> = split_chars(&chars("NAXIS,Integer,2,'c'"), ',')
        .iter()
        .map(|p| string(p))
        .collect();
    assert_eq!(pieces, vec!["NAXIS", "Integer", "2", "'c'"]);
}

#[test]
fn contains_and_remove() {
    assert!(contains_chars(&chars("XNAXIS0Y"), &chars("NAXIS0")));
    assert!(!contains_chars(&chars("NAXIS"), &chars("NAXIS0")));
    assert!(contains_chars(&chars("abc"), &chars("")));
    assert_eq!(string(&remove_char_chars(&chars("'it''s'"), '\'')), "its");
}

#[test]
fn white_space_matches_std() {
    for c in (0u32..=0x10FFFF).filter_map(char::from_u32) {
        let t = trim_chars(&vec![c]);
        assert_eq!(t.is_empty(), c.is_whitespace(), "{:?}", c);
    }
}
