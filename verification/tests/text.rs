use koe::text::{chars_of, find, is_whitespace, push_decimal, push_padded, rfind, trim, trim_end};

#[test]
fn whitespace_is_that_of_unicode() {
    for c in '\0'..=char::MAX {
        assert_eq!(is_whitespace(c), c.is_whitespace(), "{:?}", c);
    }
}

#[test]
fn trimming_takes_whitespace_from_the_ends() {
    for s in [
        "",
        " ",
        "\u{3000}\t\n",
        "a",
        " a b ",
        "\u{3000}来週の リリース\u{2003}",
        "\u{200b}x\u{200b}",
        "x\r\n",
    ] {
        assert_eq!(trim(s), s.trim());
        assert_eq!(trim_end(s), s.trim_end());
    }
}

#[test]
fn decimals_are_written_in_full() {
    for n in [0u128, 7, 9, 10, 99, 100, 16_000, u64::MAX as u128, u128::MAX] {
        let mut out = String::from("<");
        push_decimal(&mut out, n);
        assert_eq!(out, format!("<{n}"));
    }
}

#[test]
fn padding_fills_from_the_left() {
    for n in [0u128, 5, 42, 100, 12_345] {
        let mut zeros = String::new();
        push_padded(&mut zeros, n, 2, '0');
        assert_eq!(zeros, format!("{n:02}"));
        let mut spaces = String::new();
        push_padded(&mut spaces, n, 3, ' ');
        assert_eq!(spaces, format!("{n:>3}"));
    }
}

#[test]
fn patterns_are_found_from_either_end() {
    let text = chars_of("abcabcab");
    let ab = chars_of("ab");
    assert_eq!(find(&text, &ab), Some(0));
    assert_eq!(find(&text, &chars_of("ca")), Some(2));
    assert_eq!(find(&text, &chars_of("cc")), None);
    assert_eq!(find(&text, &chars_of("abcabcabc")), None);
    assert_eq!(rfind(&text, &ab, 0), Some(6));
    assert_eq!(rfind(&text, &ab, 7), None);
    assert_eq!(rfind(&text, &chars_of("ca"), 2), Some(5));
}
