use lkml_reader::text::{
    chars_of, contains, find, is_whitespace, push_decimal, read_number, split_lines, string_of,
    trimmed, trimmed_of,
};

#[test]
fn white_space_is_what_unicode_says() {
    for n in 0..=0x10ffffu32 {
        if let Some(c) = char::from_u32(n) {
            assert_eq!(is_whitespace(c), c.is_whitespace());
        }
    }
}

#[test]
fn lines_are_those_of_std() {
    for text in [
        "", "a", "a\n", "a\nb", "a\r\nb\r\n", "\n", "\r\n", "\r", "a\r", "a\r\r\nb", "\n\na\n\n", "é\n↳",
    ] {
        let ours: Vec<String> = split_lines(&chars_of(text)).iter().map(string_of).collect();
        let theirs: Vec<&str> = text.lines().collect();
        assert_eq!(ours, theirs);
    }
}

#[test]
fn trimming_is_that_of_std() {
    for text in ["", " ", " a ", "\u{3000}a b\t\n", "\"a\"", "a", "\u{a0}\u{2028}"] {
        assert_eq!(string_of(&trimmed(&chars_of(text))), text.trim());
        assert_eq!(
            string_of(&trimmed_of(&chars_of(text), '"')),
            text.trim_matches('"')
        );
    }
}

#[test]
fn searching_finds_the_first_place() {
    let hay = chars_of("é=?x=?");
    let needle = chars_of("=?");
    assert_eq!(find(&hay, &needle, 0), Some(1));
    assert_eq!(find(&hay, &needle, 2), Some(4));
    assert_eq!(find(&hay, &needle, 5), None);
    assert_eq!(find(&hay, &chars_of(""), 6), Some(6));
    assert!(contains(&hay, &needle));
    assert!(!contains(&hay, &chars_of("?=")));
}

#[test]
fn numbers_read_back() {
    for n in [0u64, 7, 10, 99, 100, 4294967295, 4294967296, u64::MAX] {
        let mut out = String::new();
        push_decimal(&mut out, n);
        assert_eq!(out, format!("{n}"));
        let digits = chars_of(&out);
        assert_eq!(read_number(&digits, 0, digits.len()), u32::try_from(n).ok());
    }
}
