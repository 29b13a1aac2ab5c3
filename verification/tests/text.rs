use rusted_light::text::{chars_of, is_whitespace, split_char_exec, trim_str};

#[test]
fn trim_removes_unicode_whitespace() {
    assert_eq!(trim_str("  a b \t\n"), "a b");
    assert_eq!(trim_str("\u{3000}x\u{a0}"), "x");
    assert_eq!(trim_str("   "), "");
}

#[test]
fn whitespace_matches_std() {
    for c in [' ', '\t', '\n', '\u{85}', '\u{2028}', 'a', '_', '\u{200b}', '\u{3000}'] {
        assert_eq!(is_whitespace(c), c.is_whitespace());
    }
}

#[test]
fn split_keeps_empty_pieces() {
    let pieces = split_char_exec(&chars_of("a::b:"), ':');
    let texts: Vec<String> = pieces.iter().map(|p| p.iter().collect()).collect();
    assert_eq!(texts, vec!["a", "", "b", ""]);
}
