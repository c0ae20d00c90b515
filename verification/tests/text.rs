use std::io::BufRead;

use shh::text::{
    char_is_whitespace, chars_of, differs, digit_of, find_from, hex8_of, lines, push_decimal,
    skip_whitespace, skip_whitespace_back, skip_whitespace_in, slice_of, starts_with,
    zero_padded_decimal,
};

fn chars(s: &str) -> Vec<char> {
    s.chars().collect()
}

fn text(v: Vec<char>) -> String {
    v.into_iter().collect()
}

fn rows(s: &str) -> Vec<String> {
    lines(&chars(s)).into_iter().map(text).collect()
}

#[test]
fn whitespace_is_what_the_standard_library_calls_whitespace() {
    for n in 0..=0x11_0000u32 {
        if let Some(c) = char::from_u32(n) {
            assert_eq!(char_is_whitespace(c), c.is_whitespace(), "U+{n:04X}");
        }
    }
}

#[test]
fn lines_are_cut_like_a_buffered_reader_cuts_them() {
    for s in ["", "\n", "a", "a\n", "a\nb", "a\r\nb\r\n", "a\r", "\r\n\r\n", "a\n\nb\n", "\r", "a\r\r\n", "x\ny\r"] {
        let expected: Vec<String> = s.as_bytes().lines().map(|l| l.unwrap()).collect();
        assert_eq!(rows(s), expected, "{s:?}");
    }
    assert_eq!(rows("a\r\nb\nc"), ["a", "b", "c"]);
    assert_eq!(rows("a\r"), ["a\r"]);
    assert_eq!(rows("\n"), [""]);
    assert!(rows("").is_empty());
}

#[test]
fn characters_of_a_string() {
    assert_eq!(chars_of("aé€😀"), vec!['a', 'é', '€', '😀']);
    assert!(chars_of("").is_empty());
}

#[test]
fn first_occurrence_is_found_from_an_index() {
    let s = chars("a=b=c");
    assert_eq!(find_from(&s, 0, '='), 1);
    assert_eq!(find_from(&s, 1, '='), 1);
    assert_eq!(find_from(&s, 2, '='), 3);
    assert_eq!(find_from(&s, 4, '='), 5);
    assert_eq!(find_from(&s, 5, '='), 5);
    assert_eq!(find_from(&s, 0, 'x'), 5);
}

#[test]
fn whitespace_is_skipped_from_either_side() {
    let s = chars(" \t a b \u{a0}\n");
    assert_eq!(skip_whitespace(&s, 0), 3);
    assert_eq!(skip_whitespace(&s, 4), 5);
    assert_eq!(skip_whitespace(&s, 6), 9);
    assert_eq!(skip_whitespace_in(&s, 0, 9), 3);
    assert_eq!(skip_whitespace_in(&s, 0, 2), 2);
    assert_eq!(skip_whitespace_in(&s, 6, 8), 8);
    assert_eq!(skip_whitespace_in(&s, 3, 3), 3);
    assert_eq!(skip_whitespace_back(&s, 0, 9), 6);
    assert_eq!(skip_whitespace_back(&s, 0, 3), 0);
    assert_eq!(skip_whitespace_back(&s, 2, 3), 2);
    assert_eq!(skip_whitespace_back(&s, 0, 4), 4);
}

#[test]
fn slice_and_prefix() {
    let s = chars("Loaded: x");
    assert_eq!(text(slice_of(&s, 2, 6)), "aded");
    assert_eq!(text(slice_of(&s, 3, 3)), "");
    assert!(starts_with(&s, &chars("Loaded:")));
    assert!(starts_with(&s, &chars("")));
    assert!(starts_with(&s, &s));
    assert!(!starts_with(&s, &chars("Loaded; ")));
    assert!(!starts_with(&s, &chars("Loaded: x ")));
}

#[test]
fn strings_differ_unless_they_hold_the_same_characters() {
    assert!(differs(&"a".to_string(), &"b".to_string()));
    assert!(differs(&"a".to_string(), &"a ".to_string()));
    assert!(!differs(&"a".to_string(), &"a".to_string()));
}

#[test]
fn digits_in_lower_case() {
    let all: String = (0..16).map(digit_of).collect();
    assert_eq!(all, "0123456789abcdef");
}

#[test]
fn decimal_numbers_are_padded_with_zeros() {
    assert_eq!(text(zero_padded_decimal(0, 3)), "000");
    assert_eq!(text(zero_padded_decimal(1, 3)), "001");
    assert_eq!(text(zero_padded_decimal(42, 3)), "042");
    assert_eq!(text(zero_padded_decimal(999, 3)), "999");
    assert_eq!(text(zero_padded_decimal(1000, 3)), "1000");
    assert_eq!(text(zero_padded_decimal(7, 0)), "7");
    assert_eq!(text(zero_padded_decimal(0, 0)), "0");
    assert_eq!(text(zero_padded_decimal(u128::MAX, 3)), u128::MAX.to_string());
    let mut out = chars("n=");
    push_decimal(&mut out, 1234567890);
    assert_eq!(text(out), "n=1234567890");
}

#[test]
fn hexadecimal_numbers_have_eight_digits() {
    for n in [0u32, 1, 0xf, 0x10, 0xdead_beef, 0x0bad_cafe, u32::MAX, 0x8000_0000, 0x1234_5678] {
        assert_eq!(text(hex8_of(n)), format!("{n:08x}"));
    }
}
