use murmur::path::{extension, stem};
use murmur::text::{
    chars_of, decimal_text, find_chars, is_whitespace, join, padded_text, parse_unsigned, same_text,
    string_of, trim,
};

#[test]
fn whitespace_is_that_of_unicode() {
    for code in 0..=0x10ffffu32 {
        if let Some(c) = char::from_u32(code) {
            assert_eq!(is_whitespace(c), c.is_whitespace(), "{:x}", code);
        }
    }
}

#[test]
fn trimming() {
    for s in ["", " ", " a ", "a", "\t\u{3000}a b\n", "\u{200b}a"] {
        assert_eq!(trim(s), s.trim());
    }
}

#[test]
fn numbers_are_written_and_read() {
    for n in [0u64, 9, 10, 99, 100, 12_345, u64::MAX] {
        assert_eq!(decimal_text(n), n.to_string());
        assert_eq!(parse_unsigned(&chars_of(&n.to_string()), u64::MAX), Some(n));
    }
    assert_eq!(padded_text(7, 2), "07");
    assert_eq!(padded_text(123, 2), "123");
    assert_eq!(padded_text(5, 3), "005");
    for s in ["", "+", "-1", "1a", " 1", "18446744073709551616", "++1", "١"] {
        assert_eq!(parse_unsigned(&chars_of(s), u64::MAX), s.parse::<u64>().ok(), "{}", s);
    }
    for s in ["+5", "007", "4294967295", "4294967296"] {
        assert_eq!(
            parse_unsigned(&chars_of(s), u32::MAX as u64).map(|n| n as u32),
            s.parse::<u32>().ok()
        );
    }
}

#[test]
fn searching() {
    let v = chars_of("abcabc");
    assert_eq!(find_chars(&v, &chars_of("ca"), 0), Some(2));
    assert_eq!(find_chars(&v, &chars_of("abc"), 1), Some(3));
    assert_eq!(find_chars(&v, &chars_of("x"), 0), None);
    assert_eq!(find_chars(&v, &chars_of(""), 6), Some(6));
    assert_eq!(find_chars(&v, &chars_of("a"), 7), None);
}

#[test]
fn texts_are_joined() {
    assert_eq!(join(&vec![], ", "), "");
    assert_eq!(join(&vec!["a".into(), "".into(), "b".into()], ", "), "a, , b");
    assert!(same_text("é", "é"));
    assert!(!same_text("e", "é"));
    assert_eq!(string_of(&chars_of("añ🙂")), "añ🙂");
}

#[test]
fn file_names_have_stems_and_extensions() {
    for name in ["a.mp3", "a", ".a", "a.b.c", "a.", "..a", "x.y.", ".hidden.txt"] {
        let p = std::path::Path::new(name);
        assert_eq!(extension(name).as_deref(), p.extension().and_then(|e| e.to_str()), "{}", name);
        assert_eq!(stem(name), p.file_stem().unwrap().to_str().unwrap(), "{}", name);
    }
}
