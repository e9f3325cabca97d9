use browser_engine::dom::split_words;
use browser_engine::painting::trim;
use browser_engine::text::{
    char_is_alphanumeric, char_is_whitespace, chars_of, push_decimal, scan, slice_of,
    starts_with_at, string_of, CharClass,
};

fn all_chars() -> impl Iterator<Item = char> {
    (0u32..=0x10FFFF).filter_map(char::from_u32)
}

#[test]
fn white_space_is_what_the_standard_library_says() {
    for c in all_chars() {
        assert_eq!(char_is_whitespace(c), c.is_whitespace(), "U+{:04X}", c as u32);
    }
}

#[test]
fn letters_and_digits_are_what_the_standard_library_says() {
    for c in all_chars() {
        assert_eq!(char_is_alphanumeric(c), c.is_alphanumeric(), "U+{:04X}", c as u32);
    }
}

#[test]
fn no_letter_or_digit_is_white_space() {
    for c in all_chars() {
        assert!(!(char_is_alphanumeric(c) && char_is_whitespace(c)), "U+{:04X}", c as u32);
    }
}

#[test]
fn classes_of_characters() {
    let cases = [
        (CharClass::Whitespace, " \t\n\u{3000}", "a-<"),
        (CharClass::Alphanumeric, "aZ09é日", " -_<>/=\"'!"),
        (CharClass::Identifier, "aZ09é-_", " <>#.:;{}"),
        (CharClass::Numeric, "0123456789.", "a-+e "),
        (CharClass::Word, "a<-", " \n\u{a0}"),
        (CharClass::Until('<'), "a >/", "<"),
        (CharClass::Unquoted, "a\"'=<", " \t>/"),
    ];
    for (class, inside, outside) in cases {
        for c in inside.chars() {
            assert!(class.test(c), "{:?} {:?}", class, c);
        }
        for c in outside.chars() {
            assert!(!class.test(c), "{:?} {:?}", class, c);
        }
    }
}

#[test]
fn scan_stops_at_the_first_character_outside_the_class() {
    let v = chars_of("  ab1 cd");
    assert_eq!(scan(&v, 0, CharClass::Whitespace), 2);
    assert_eq!(scan(&v, 2, CharClass::Whitespace), 2);
    assert_eq!(scan(&v, 2, CharClass::Alphanumeric), 5);
    assert_eq!(scan(&v, 6, CharClass::Alphanumeric), 8);
    assert_eq!(scan(&v, 8, CharClass::Alphanumeric), 8);
}

#[test]
fn strings_and_characters_convert() {
    let v = chars_of("añb日c");
    assert_eq!(v, vec!['a', 'ñ', 'b', '日', 'c']);
    assert_eq!(string_of(&v, 1, 4), "ñb日");
    assert_eq!(string_of(&v, 2, 2), "");
    assert_eq!(slice_of(&v, 3, 5), vec!['日', 'c']);
    assert!(chars_of("").is_empty());
}

#[test]
fn prefix_at_a_position() {
    let v = chars_of("<!-- x -->");
    assert!(starts_with_at(&v, 0, &chars_of("<!--")));
    assert!(starts_with_at(&v, 7, &chars_of("-->")));
    assert!(!starts_with_at(&v, 8, &chars_of("-->")));
    assert!(!starts_with_at(&v, 1, &chars_of("<!")));
    assert!(starts_with_at(&v, 10, &chars_of("")));
    assert!(!starts_with_at(&v, 11, &chars_of("")));
}

#[test]
fn numbers_are_written_in_decimal() {
    let mut s = String::from("n=");
    push_decimal(&mut s, 0);
    s.push(',');
    push_decimal(&mut s, 7);
    s.push(',');
    push_decimal(&mut s, 1230);
    s.push(',');
    push_decimal(&mut s, usize::MAX);
    assert_eq!(s, format!("n=0,7,1230,{}", usize::MAX));
}

#[test]
fn words_and_trimming_agree_with_the_standard_library() {
    let samples = [
        "",
        " ",
        "a",
        "  a  ",
        "a b",
        "\ta\nb\r\nc ",
        "\u{a0}x\u{2003}y\u{3000}",
        " é  日本 \u{85} z",
        "no-space",
    ];
    for sample in samples {
        let expected: Vec<String> = sample.split_whitespace().map(|w| w.to_string()).collect();
        assert_eq!(split_words(&chars_of(sample)), expected, "{:?}", sample);
        assert_eq!(trim(sample), sample.trim(), "{:?}", sample);
    }
}
