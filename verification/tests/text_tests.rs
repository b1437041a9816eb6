use qams::text::{chars_of, is_whitespace_char, string_from_range, trim_range};

#[test]
fn whitespace_agrees_with_std_on_every_char() {
    for code in 0u32..=0x10FFFF {
        if let Some(c) = char::from_u32(code) {
            assert_eq!(is_whitespace_char(c), c.is_whitespace(), "char {:#x}", code);
        }
    }
}

#[test]
fn chars_of_keeps_order() {
    assert_eq!(chars_of("aé\u{3000}z"), vec!['a', 'é', '\u{3000}', 'z']);
    assert_eq!(chars_of(""), Vec::<char>::new());
}

#[test]
fn string_from_range_copies_the_range() {
    let chars = chars_of("hello world");
    assert_eq!(string_from_range(&chars, 6, 11), "world");
    assert_eq!(string_from_range(&chars, 3, 3), "");
}

#[test]
fn trim_range_drops_unicode_whitespace() {
    let chars = chars_of("\u{3000} \tab c\u{a0}\r");
    let (a, b) = trim_range(&chars, 0, chars.len());
    assert_eq!(string_from_range(&chars, a, b), "ab c");
    let blank = chars_of(" \t ");
    let (a, b) = trim_range(&blank, 0, blank.len());
    assert_eq!(a, b);
}
