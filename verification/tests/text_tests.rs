use protohackers::text::{all_alphanumeric, char_is_whitespace, chars_of, trimmed};

#[test]
fn whitespace_matches_std_for_every_char() {
    for u in 0u32..0x11_0000 {
        if let Some(c) = char::from_u32(u) {
            assert_eq!(char_is_whitespace(c), c.is_whitespace(), "U+{:04X}", u);
        }
    }
}

#[test]
fn trimming_matches_std() {
    for s in ["", " ", "a", " a ", "\t\r\n x y \u{3000}", "\u{85}z\u{a0}", "no-trim", "  \u{2009} "] {
        assert_eq!(trimmed(s), s.trim());
    }
}

#[test]
fn alphanumeric_checks() {
    assert!(all_alphanumeric("a7ß"));
    assert!(!all_alphanumeric("-"));
    assert!(all_alphanumeric("abc123"));
    assert!(all_alphanumeric(""));
    assert!(!all_alphanumeric("ab c"));
}

#[test]
fn chars_round_trip() {
    let s = "héllo, wörld";
    let cs = chars_of(s);
    assert_eq!(cs.len(), 12);
    assert_eq!(cs.iter().collect::<String>(), s);
    assert_eq!(trimmed(" xy "), "xy");
}
