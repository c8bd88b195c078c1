use protohackers::proxy::rewrite_line;

const TONY: &str = "7YWHMfk9JZe0LM0g1ZauHuiSxhI";

fn rw(s: &str) -> String {
    String::from_utf8(rewrite_line(s.as_bytes())).unwrap()
}

#[test]
fn address_is_replaced() {
    assert_eq!(
        rw("Hi alice, please send payment to 7iKDZEwPZSqIvDnHvVN2r0hUWXD5rHX\n"),
        format!("Hi alice, please send payment to {}\n", TONY)
    );
    assert_eq!(rw("7LOrwbDlS8NujgjddyogWgIM93MV5N2VR"), TONY);
}

#[test]
fn several_addresses_and_line_endings() {
    assert_eq!(
        rw("7adNeSwJkMakpEcln9HEtthSRtxdmEHOT8T 7F1u3wSD5RbOHQmupo9nx4TnhQ\r\n"),
        format!("{} {}\r\n", TONY, TONY)
    );
}

#[test]
fn lengths_outside_the_range_are_kept() {
    let short = "7".repeat(25);
    let long = "7".repeat(36);
    let low = "7".repeat(26);
    let high = "7".repeat(35);
    assert_eq!(rw(&short), short);
    assert_eq!(rw(&long), long);
    assert_eq!(rw(&low), TONY);
    assert_eq!(rw(&high), TONY);
    let not_seven = format!("8{}", "7".repeat(29));
    assert_eq!(rw(&not_seven), not_seven);
}

#[test]
fn spaces_and_empty_words_are_kept() {
    assert_eq!(rw("  a  b \n"), "  a  b \n");
    assert_eq!(rw(""), "");
    assert_eq!(rw("\n"), "\n");
    assert_eq!(rw("x\r"), "x\r");
}

#[test]
fn byte_length_counts() {
    // 13 two-byte characters after the 7 make 27 bytes but only 14 characters.
    let word = format!("7{}", "é".repeat(13));
    assert_eq!(rw(&word), TONY);
}

#[test]
fn rewriting_twice_changes_nothing_more() {
    for line in [
        "send to 7iKDZEwPZSqIvDnHvVN2r0hUWXD5rHX please\n",
        "7LOrwbDlS8NujgjddyogWgIM93MV5N2VR\r\n",
        "plain text",
    ] {
        let once = rewrite_line(line.as_bytes());
        assert_eq!(rewrite_line(&once), once);
    }
}
