use automata::text::{chars_of, is_whitespace, split_windows, string_of, trim, trim_window};

#[test]
fn whitespace_is_the_unicode_white_space_set() {
    let mut code: u32 = 0;
    while code <= 0x10ffff {
        if let Some(c) = char::from_u32(code) {
            assert_eq!(is_whitespace(c), c.is_whitespace(), "code point {:#x}", code);
        }
        code += 1;
    }
}

#[test]
fn trim_takes_whitespace_off_both_ends_only() {
    assert_eq!(trim("  q0 \n"), "q0");
    assert_eq!(trim("\t a b \r\n"), "a b");
    assert_eq!(trim(""), "");
    assert_eq!(trim(" \u{a0}\u{3000} "), "");
    assert_eq!(trim("x"), "x");
    assert_eq!(trim("\u{2003}é\u{2003}"), "é");
}

#[test]
fn trim_agrees_with_the_standard_library() {
    let samples = ["", " ", "a", " a", "a ", "  a  b  ", "\n\t", "(q0, a)->{q1}\n", "\u{85}x\u{85}"];
    for s in samples {
        assert_eq!(trim(s), s.trim());
    }
}

#[test]
fn characters_are_taken_in_order() {
    assert_eq!(chars_of("aé1"), vec!['a', 'é', '1']);
    assert_eq!(chars_of(""), Vec::<char>::new());
}

#[test]
fn string_of_window_holds_its_characters() {
    let v = chars_of("hello");
    assert_eq!(string_of(&v, 1, 4), "ell");
    assert_eq!(string_of(&v, 2, 2), "");
    assert_eq!(string_of(&v, 0, 5), "hello");
}

#[test]
fn trim_window_narrows_within_bounds() {
    let v = chars_of("ab  cd  ef");
    assert_eq!(trim_window(&v, 2, 8), (4, 6));
    assert_eq!(trim_window(&v, 2, 4), (4, 4));
    assert_eq!(trim_window(&v, 0, 10), (0, 10));
}

#[test]
fn split_keeps_empty_pieces() {
    let v = chars_of("a,,b,");
    assert_eq!(split_windows(&v, 0, 5, ','), vec![(0, 1), (2, 2), (3, 4), (5, 5)]);
    assert_eq!(split_windows(&v, 0, 0, ','), vec![(0, 0)]);
    let w = chars_of("abc");
    assert_eq!(split_windows(&w, 0, 3, ','), vec![(0, 3)]);
}
