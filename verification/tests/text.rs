use hypercast_relay_directory::text::{chars_of, compare_chars, parse_u64_str, white_space, Order};

#[test]
fn white_space_matches_std_for_every_char() {
    for v in 0u32..=0x10FFFF {
        if let Some(c) = char::from_u32(v) {
            assert_eq!(white_space(c), c.is_whitespace(), "char {v:#x}");
        }
    }
}

#[test]
fn parse_u64_agrees_with_std() {
    let samples = [
        "", "+", "-", "0", "+0", "-0", "00", "42", "+42", " 42", "42 ", "4 2", "1e3",
        "18446744073709551615", "18446744073709551616", "+18446744073709551615",
        "000000000000000000000000018446744073709551615", "99999999999999999999", "٣", "12a",
    ];
    for s in samples {
        assert_eq!(parse_u64_str(s), s.parse::<u64>().ok(), "input {s:?}");
    }
}

#[test]
fn compare_matches_string_order() {
    let words = ["", "a", "ab", "b", "B", "é", "e", "ß", "z", "Z", "aa", "a\u{0}", "\u{10FFFF}"];
    for x in words {
        for y in words {
            let expected = x.cmp(y);
            let got = compare_chars(&chars_of(x), &chars_of(y));
            let same = matches!(
                (got, expected),
                (Order::Less, std::cmp::Ordering::Less)
                    | (Order::Equal, std::cmp::Ordering::Equal)
                    | (Order::Greater, std::cmp::Ordering::Greater)
            );
            assert!(same, "{x:?} vs {y:?}");
        }
    }
}
