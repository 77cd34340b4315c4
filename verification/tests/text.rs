use ask::text::{
    decimal_of, is_whitespace, less_text, same_text, signed_decimal_of, string_of, trim, width,
};

#[test]
fn white_space_is_that_of_unicode() {
    for c in '\0'..=char::MAX {
        assert_eq!(is_whitespace(c), c.is_whitespace(), "{c:?}");
        assert_eq!(width(c), c.len_utf8(), "{c:?}");
    }
}

#[test]
fn texts_are_trimmed() {
    for text in ["", " ", "a", " a ", "\t\u{3000}a b\u{a0}\n", "\u{200b}a"] {
        let chars: Vec<char> = text.chars().collect();
        assert_eq!(string_of(trim(&chars)), text.trim());
    }
}

#[test]
fn numbers_are_written_in_decimal() {
    for n in [0, 9, 10, 99, 100, 18_446_744_073_709_551_615] {
        assert_eq!(decimal_of(n), n.to_string());
    }
    for n in [0, -1, 7, i64::MIN, i64::MAX] {
        assert_eq!(signed_decimal_of(n), n.to_string());
    }
}

#[test]
fn texts_are_compared() {
    let texts = ["", "a", "ab", "b", "\u{e9}", "\u{ffff}", "\u{10000}", "A"];
    for a in texts {
        for b in texts {
            assert_eq!(same_text(a, b), a == b);
            assert_eq!(less_text(a, b), a < b, "{a:?} {b:?}");
        }
    }
}
