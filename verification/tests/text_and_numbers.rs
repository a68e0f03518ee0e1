use packet_loss_monitor::number::{parse_unsigned_chars, IntErrorKind};
use packet_loss_monitor::text::{
    chars_of, decimal_chars, is_whitespace_char, next_line, split_whitespace, trim_chars,
};

fn chars(s: &str) -> Vec<char> {
    s.chars().collect()
}

fn all_lines(s: &str) -> Vec<String> {
    let mut rest = chars(s);
    let mut out = Vec::new();
    while !rest.is_empty() {
        let (line, next) = next_line(&rest);
        out.push(line.into_iter().collect());
        rest = next;
    }
    out
}

#[test]
fn whitespace_class_matches_std_everywhere() {
    for u in 0u32..=0x10FFFF {
        if let Some(c) = char::from_u32(u) {
            assert_eq!(is_whitespace_char(c), c.is_whitespace(), "U+{:04X}", u);
        }
    }
}

#[test]
fn lines_match_std() {
    for s in ["", "a", "a\n", "a\r\nb", "a\n\nb\n", "x\r", "\n", "\r\n\r\n", "a\rb\n"] {
        let expected: Vec<String> = s.lines().map(|l| l.to_string()).collect();
        assert_eq!(all_lines(s), expected, "{:?}", s);
    }
}

#[test]
fn trim_and_fields_match_std() {
    for s in ["", "  a b  ", "\t\u{a0}x\u{3000}", "one", " \u{2028} "] {
        let t: String = trim_chars(&chars(s)).into_iter().collect();
        assert_eq!(t, s.trim());
        let f: Vec<String> =
            split_whitespace(&chars(s)).into_iter().map(|v| v.into_iter().collect()).collect();
        let expected: Vec<String> = s.split_whitespace().map(|x| x.to_string()).collect();
        assert_eq!(f, expected);
    }
}

#[test]
fn chars_of_keeps_text() {
    assert_eq!(chars_of("h\u{e9}llo"), chars("h\u{e9}llo"));
}

#[test]
fn hex_parsing_matches_from_str_radix() {
    for s in ["0", "ff", "FF", "+1A", "-1", "+", "-", "", "ffffffff", "100000000", "0x10", "g", "00000000ffffffff", "123456789", "1_0", "\u{663}"] {
        let ours = parse_unsigned_chars(&chars(s), 16, u32::MAX as u64);
        let std = u32::from_str_radix(s, 16);
        match (ours, std) {
            (Ok(a), Ok(b)) => assert_eq!(a, b as u64, "{:?}", s),
            (Err(k), Err(e)) => {
                let expected = match e.kind() {
                    std::num::IntErrorKind::Empty => IntErrorKind::Empty,
                    std::num::IntErrorKind::InvalidDigit => IntErrorKind::InvalidDigit,
                    std::num::IntErrorKind::PosOverflow => IntErrorKind::PosOverflow,
                    _ => panic!("unexpected kind for {:?}", s),
                };
                assert_eq!(k, expected, "{:?}", s);
                assert_eq!(k.message(), e.to_string());
            }
            (a, b) => panic!("{:?}: {:?} vs {:?}", s, a, b),
        }
    }
}

#[test]
fn decimal_round_trip() {
    for n in [0u64, 7, 10, 99, 100, 12345, u64::MAX] {
        let d = decimal_chars(n);
        let text: String = d.iter().collect();
        assert_eq!(text, n.to_string());
        assert_eq!(parse_unsigned_chars(&d, 10, u64::MAX), Ok(n));
    }
    assert_eq!(
        parse_unsigned_chars(&chars("256"), 10, 255),
        Err(IntErrorKind::PosOverflow)
    );
}

#[test]
fn int_error_messages() {
    assert_eq!(IntErrorKind::Empty.message(), "cannot parse integer from empty string");
    assert_eq!(IntErrorKind::InvalidDigit.message(), "invalid digit found in string");
    assert_eq!(IntErrorKind::PosOverflow.message(), "number too large to fit in target type");
}

#[test]
fn whitespace_class_matches_regex_space_class() {
    let space = regex::Regex::new(r"^\s$").unwrap();
    let mut buf = [0u8; 4];
    for u in 0u32..=0x10FFFF {
        if let Some(c) = char::from_u32(u) {
            assert_eq!(is_whitespace_char(c), space.is_match(c.encode_utf8(&mut buf)), "U+{:04X}", u);
        }
    }
}
