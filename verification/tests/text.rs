use nanotekspice::circuit::display::comes_before;
use nanotekspice::text::{
    chars_equal, char_code, digit_text, is_whitespace, number_to_string, parse_number, scan_for, str_equal,
    to_chars, trim_end, Scan,
};

#[test]
fn numbers_are_written_in_base_ten() {
    for n in [0, 1, 9, 10, 11, 99, 100, 101, 4081, 65535, usize::MAX - 1, usize::MAX] {
        assert_eq!(number_to_string(n), n.to_string());
    }
    assert_eq!(number_to_string(120), "120");
    assert_eq!(digit_text(0), "0");
    assert_eq!(digit_text(7), "7");
}

#[test]
fn machine_numbers_are_read_as_std_reads_them() {
    for text in [
        "0", "1", "007", "+5", "+0", "42", "18446744073709551615", "18446744073709551616", "99999999999999999999",
        "", "+", "-1", "-0", "1 ", " 1", "1_000", "0x10", "１", "++1", "1+", "٣",
    ] {
        let chars = to_chars(text);
        assert_eq!(parse_number(&chars, 0, chars.len()), text.parse::<usize>().ok(), "{text:?}");
    }
    let chars = to_chars("ab12cd");
    assert_eq!(parse_number(&chars, 2, 4), Some(12));
    assert_eq!(parse_number(&chars, 2, 2), None);
    assert_eq!(parse_number(&chars, 1, 4), None);
}

#[test]
fn white_space_is_what_unicode_says() {
    for code in 0..=0x11_0000u32 {
        if let Some(c) = char::from_u32(code) {
            assert_eq!(is_whitespace(c), c.is_whitespace(), "U+{code:04X}");
            assert_eq!(char_code(c), code);
        }
    }
}

#[test]
fn scans_stop_at_the_first_hit() {
    let chars = to_chars("  ab c#d ");
    let n = chars.len();
    assert_eq!(n, 9);
    assert_eq!(scan_for(&chars, Scan::NonSpace, 0, n), 2);
    assert_eq!(scan_for(&chars, Scan::Space, 2, n), 4);
    assert_eq!(scan_for(&chars, Scan::Char('#'), 0, n), 6);
    assert_eq!(scan_for(&chars, Scan::Char('#'), 7, n), n);
    assert_eq!(scan_for(&chars, Scan::Char('#'), 0, 6), 6);
    assert_eq!(scan_for(&chars, Scan::Space, 3, 3), 3);
    assert_eq!(trim_end(&chars, 0, n), 8);
    assert_eq!(trim_end(&chars, 0, 5), 4);
    assert_eq!(trim_end(&chars, 0, 2), 0);
    assert_eq!(trim_end(&chars, 1, 2), 1);
}

#[test]
fn texts_are_compared_character_by_character() {
    let texts = ["", "a", "ab", "b", "B", "é", "e", "10", "9", "\u{10000}", "\u{ffff}", "aa", "a\u{0}"];
    for left in texts {
        for right in texts {
            assert_eq!(comes_before(left, right), left < right, "{left:?} {right:?}");
            assert_eq!(str_equal(left, right), left == right);
            assert_eq!(chars_equal(&to_chars(left), &to_chars(right)), left == right);
        }
        assert_eq!(to_chars(left), left.chars().collect::<Vec<char>>());
    }
}
