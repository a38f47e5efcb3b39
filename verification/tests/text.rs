use lednet::text::{char_is_white, chars_of, parse_u8, parse_u8_codes, spells, split_words};

fn cs(s: &str) -> Vec<char> {
    s.chars().collect()
}

fn codes(s: &str) -> Vec<u32> {
    s.chars().map(|c| c as u32).collect()
}

#[test]
fn whitespace_is_unicode_whitespace() {
    for c in [' ', '\t', '\n', '\r', '\u{0b}', '\u{0c}', '\u{85}', '\u{a0}', '\u{2003}', '\u{3000}'] {
        assert!(char_is_white(c), "{:?}", c);
        assert_eq!(char_is_white(c), c.is_whitespace());
    }
    for c in ['a', '0', '_', '\u{200b}', 'é'] {
        assert!(!char_is_white(c), "{:?}", c);
        assert_eq!(char_is_white(c), c.is_whitespace());
    }
}

#[test]
fn chars_of_gives_the_characters() {
    assert_eq!(chars_of("añb"), vec!['a', 'ñ', 'b']);
    assert_eq!(chars_of(""), Vec::<char>::new());
}

#[test]
fn split_words_matches_split_whitespace() {
    for s in ["", "   ", "a", " a  bc\td\n", "x\u{3000}y", "one two"] {
        let expected: Vec<Vec<char>> = s.split_whitespace().map(|w| w.chars().collect()).collect();
        assert_eq!(split_words(s), expected, "{:?}", s);
    }
}

#[test]
fn parse_u8_reads_decimal_bytes() {
    assert_eq!(parse_u8(&cs("0")), Some(0));
    assert_eq!(parse_u8(&cs("255")), Some(255));
    assert_eq!(parse_u8(&cs("007")), Some(7));
    assert_eq!(parse_u8(&cs("+5")), Some(5));
}

#[test]
fn parse_u8_refuses_what_std_refuses() {
    for s in ["", "256", "1000", "-0", "+", "-", "1a", " 1", "++1"] {
        assert_eq!(parse_u8(&cs(s)), None, "{:?}", s);
        assert!(s.parse::<u8>().is_err());
    }
}

#[test]
fn parse_u8_codes_reads_hexadecimal() {
    assert_eq!(parse_u8_codes(&codes("ff"), 16), Some(255));
    assert_eq!(parse_u8_codes(&codes("A0"), 16), Some(160));
    assert_eq!(parse_u8_codes(&codes("100"), 16), None);
    assert_eq!(parse_u8_codes(&codes("g"), 16), None);
    assert_eq!(parse_u8_codes(&codes("101"), 2), Some(5));
    assert_eq!(parse_u8_codes(&codes("2"), 2), None);
}

#[test]
fn spells_compares_characters() {
    assert!(spells(&cs("Width"), "Width"));
    assert!(!spells(&cs("width"), "Width"));
    assert!(!spells(&cs("Widths"), "Width"));
    assert!(spells(&cs(""), ""));
}

#[test]
fn parse_u8_codes_reads_up_to_base_36() {
    assert_eq!(parse_u8_codes(&codes("z"), 36), Some(35));
    assert_eq!(parse_u8_codes(&codes("73"), 36), Some(255));
    assert_eq!(parse_u8_codes(&codes("74"), 36), None);
    assert_eq!(parse_u8_codes(&codes("z"), 35), None);
}
