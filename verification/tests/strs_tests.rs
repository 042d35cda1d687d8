use wyvern::strs::{
    decimal_chars, decimal_string, find_char, is_ascii_punctuation, is_whitespace, len_utf16,
    parse_usize, slice_vec, split_lines, split_words, str_to_chars, trim_chars, trim_str,
    utf8_len_of,
};

fn chars(s: &str) -> Vec<char> {
    s.chars().collect()
}

fn strings(v: Vec<Vec<char>>) -> Vec<String> {
    v.into_iter().map(|c| c.into_iter().collect()).collect()
}

#[test]
fn str_to_chars_keeps_every_char() {
    assert_eq!(str_to_chars("añb€"), vec!['a', 'ñ', 'b', '€']);
    assert_eq!(str_to_chars(""), Vec::<char>::new());
}

#[test]
fn whitespace_matches_std() {
    for c in [' ', '\t', '\n', '\r', '\u{a0}', '\u{2028}', '\u{3000}', 'a', '_', '0', '\u{200b}'] {
        assert_eq!(is_whitespace(c), c.is_whitespace(), "{:?}", c);
    }
}

#[test]
fn ascii_punctuation_matches_std() {
    for b in 0u8..128 {
        let c = b as char;
        assert_eq!(is_ascii_punctuation(c), c.is_ascii_punctuation(), "{:?}", c);
    }
    assert!(!is_ascii_punctuation('¿'));
}

#[test]
fn utf16_lengths() {
    assert_eq!(len_utf16('a'), 1);
    assert_eq!(len_utf16('€'), 1);
    assert_eq!(len_utf16('😀'), 2);
}

#[test]
fn find_char_from_position() {
    let s = chars("a,b,c");
    assert_eq!(find_char(&s, ',', 0), Some(1));
    assert_eq!(find_char(&s, ',', 2), Some(3));
    assert_eq!(find_char(&s, ',', 4), None);
    assert_eq!(find_char(&s, 'z', 0), None);
}

#[test]
fn split_lines_matches_std() {
    for text in ["a\nb\r\nc", "a\n", "", "\n\n", "x\r\n", "one"] {
        let expected: Vec<String> = text.lines().map(|l| l.to_string()).collect();
        assert_eq!(strings(split_lines(&chars(text))), expected, "{:?}", text);
    }
}

#[test]
fn split_words_matches_std() {
    for text in ["  a  bb\tccc\n", "", "   ", "one"] {
        let expected: Vec<String> = text.split_whitespace().map(|l| l.to_string()).collect();
        assert_eq!(strings(split_words(&chars(text))), expected, "{:?}", text);
    }
}

#[test]
fn slice_vec_takes_range() {
    assert_eq!(slice_vec(&chars("hello"), 1, 4), chars("ell"));
    assert_eq!(slice_vec(&chars("hello"), 2, 2), Vec::<char>::new());
}

#[test]
fn parse_usize_matches_std() {
    for text in ["0", "42", "+7", "", "+", "-1", "12a", "007", "18446744073709551615", "18446744073709551616"] {
        assert_eq!(parse_usize(&chars(text)), text.parse::<usize>().ok(), "{:?}", text);
    }
}

#[test]
fn trim_matches_std() {
    for text in ["  a b  ", "\t\n", "", "x", " \u{3000}y\u{a0}"] {
        assert_eq!(trim_chars(&chars(text)), chars(text.trim()), "{:?}", text);
        assert_eq!(trim_str(text), text.trim());
    }
}

#[test]
fn decimal_forms() {
    assert_eq!(decimal_string(0), "0");
    assert_eq!(decimal_string(1203), "1203");
    assert_eq!(decimal_chars(95), vec!['9', '5']);
    assert_eq!(decimal_string(usize::MAX), usize::MAX.to_string());
}

#[test]
fn utf8_length_matches_std() {
    for text in ["", "abc", "ñ", "€", "😀x"] {
        assert_eq!(utf8_len_of(&chars(text)), text.len(), "{:?}", text);
    }
}
