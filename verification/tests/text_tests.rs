use mutuals_graph::text::{is_space_char, trim_str};

#[test]
fn whitespace_is_the_unicode_white_space_set() {
    for x in 0..0x3100u32 {
        if let Some(c) = char::from_u32(x) {
            assert_eq!(is_space_char(c), c.is_whitespace(), "char {:#x}", x);
        }
    }
    assert!(!is_space_char('\u{200b}'));
    assert!(!is_space_char('\u{feff}'));
}

#[test]
fn trimming_removes_whitespace_at_both_ends() {
    for s in ["", "   ", "a", "  a b  ", "\t\n x\u{2003}", "\u{3000}\u{85}y\u{a0}", "é ü", " \u{200b} "] {
        assert_eq!(trim_str(s), s.trim(), "{:?}", s);
    }
    assert_eq!(trim_str("\u{2028} Bob Smith \u{2029}"), "Bob Smith");
}
