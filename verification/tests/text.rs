//! Text primitives, held against what the standard library does.

use pathdoc::text::{
    decimal_width, ends_with, eq_ignore_ascii_case, is_white_space, lines, split_on,
    text_sorts_before, to_decimal, trim, trim_end_separators,
};

#[test]
fn every_character_is_judged_as_the_standard_library_does() {
    for code in 0..=0x10ffff_u32 {
        if let Some(character) = char::from_u32(code) {
            assert_eq!(
                is_white_space(character),
                character.is_whitespace(),
                "U+{code:04X}"
            );
        }
    }
}

#[test]
fn trimming_takes_whitespace_off_both_ends_only() {
    for text in ["", " ", "\t a b \u{3000}", "a", "\r\n", "\u{a0}x y\u{2003}"] {
        assert_eq!(trim(text), text.trim());
        assert_eq!(trim(trim(text)), trim(text));
    }
}

#[test]
fn splitting_and_lines_match_the_standard_library() {
    for text in ["", ";", "a;b", ";a;;b;", "\u{e4};\u{1f600}"] {
        assert_eq!(split_on(text, ';'), text.split(';').collect::<Vec<_>>());
        assert_eq!(split_on(text, ';').join(";"), text);
    }
    for text in ["", "\n", "a\nb", "a\r\nb\r\n", "a\r", "\n\n", "a\n\r\nb\r"] {
        assert_eq!(lines(text), text.lines().collect::<Vec<_>>());
    }
}

#[test]
fn texts_are_ordered_as_the_standard_library_orders_them() {
    let texts = ["", "a", "ab", "b", "B", "\u{e4}", "\u{ffff}", "\u{10000}"];
    for left in texts {
        for right in texts {
            assert_eq!(text_sorts_before(left, right), left < right);
            assert_eq!(
                eq_ignore_ascii_case(left, right),
                left.eq_ignore_ascii_case(right)
            );
            assert_eq!(ends_with(left, right), left.ends_with(right));
        }
    }
}

#[test]
fn numbers_are_written_in_decimal() {
    for number in [0, 7, 10, 99, 100, 12345, u128::from(u64::MAX), u128::MAX] {
        assert_eq!(to_decimal(number), number.to_string());
    }
    for number in [0, 9, 10, 999, 1000, usize::MAX] {
        assert_eq!(decimal_width(number), number.to_string().len());
    }
}

#[test]
fn only_trailing_separators_come_off() {
    assert_eq!(trim_end_separators(r"C:\one\/\"), r"C:\one");
    assert_eq!(trim_end_separators(r"\\"), "");
    assert_eq!(trim_end_separators("one"), "one");
}
