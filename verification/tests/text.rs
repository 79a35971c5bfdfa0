use team_rounds::text::{chars_of, trim_range, white_space};

#[test]
fn white_space_is_what_the_standard_library_calls_white_space() {
    for code in 0u32..=0x10ffff {
        if let Some(c) = char::from_u32(code) {
            assert_eq!(white_space(c), c.is_whitespace());
        }
    }
}

#[test]
fn some_white_space_and_some_that_is_none() {
    assert!(white_space(' '));
    assert!(white_space('\t'));
    assert!(white_space('\n'));
    assert!(white_space('\r'));
    assert!(white_space('\u{a0}'));
    assert!(white_space('\u{3000}'));
    assert!(!white_space('a'));
    assert!(!white_space(','));
    assert!(!white_space('\u{200b}'));
    assert!(!white_space('\u{0}'));
}

#[test]
fn chars_of_lists_the_characters() {
    assert_eq!(chars_of(""), Vec::<char>::new());
    assert_eq!(chars_of("aé花 "), vec!['a', 'é', '花', ' ']);
}

#[test]
fn trim_range_cuts_both_ends() {
    let chars = chars_of("  ab c \t");
    assert_eq!(trim_range(&chars, 0, chars.len()), (2, 6));
    assert_eq!(trim_range(&chars, 3, 5), (3, 4));
    assert_eq!(trim_range(&chars, 2, 6), (2, 6));
}

#[test]
fn trim_range_of_white_space_only_is_empty() {
    let chars = chars_of(" \t\n");
    let (from, to) = trim_range(&chars, 0, 3);
    assert_eq!(from, to);
    assert_eq!(trim_range(&chars, 1, 1), (1, 1));
    let none = chars_of("");
    assert_eq!(trim_range(&none, 0, 0), (0, 0));
}

#[test]
fn trim_range_agrees_with_trim() {
    let texts =
        ["", " ", "a", " a", "a ", "  a b  ", "\u{3000}花 子\u{a0}\r\n", "\t\t", "x\u{85}"];
    for text in texts.iter() {
        let chars = chars_of(text);
        let (from, to) = trim_range(&chars, 0, chars.len());
        let cut: String = chars[from..to].iter().collect();
        assert_eq!(cut, text.trim());
    }
}
