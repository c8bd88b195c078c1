use protohackers::primes::{handle_line, is_prime, response, Outcome};

#[test]
fn small_numbers() {
    let primes: Vec<u128> = (0u128..30).filter(|&n| is_prime(n)).collect();
    assert_eq!(primes, vec![2, 3, 5, 7, 11, 13, 17, 19, 23, 29]);
}

#[test]
fn larger_numbers() {
    assert!(is_prime(7919));
    assert!(!is_prime(7917));
    assert!(is_prime(1_000_000_007));
    assert!(!is_prime(1_000_003u128 * 1_000_003u128));
    assert!(!is_prime(u64::MAX as u128));
}

#[test]
fn prime_request_answered_true() {
    let out = handle_line("{\"method\":\"isPrime\",\"number\":7}\n");
    assert!(matches!(out, Outcome::Answer(true)));
    assert_eq!(
        response(&out),
        Some("{\"method\":\"isPrime\",\"prime\":true}\n".to_string())
    );
}

#[test]
fn composite_negative_and_fractional_answered_false() {
    assert!(matches!(handle_line("{\"method\":\"isPrime\",\"number\":4}"), Outcome::Answer(false)));
    assert!(matches!(handle_line("{\"method\":\"isPrime\",\"number\":-7}"), Outcome::Answer(false)));
    assert!(matches!(handle_line("{\"method\":\"isPrime\",\"number\":0}"), Outcome::Answer(false)));
    assert!(matches!(handle_line("{\"method\":\"isPrime\",\"number\":7.5}"), Outcome::Answer(false)));
    assert!(matches!(handle_line("{\"method\":\"isPrime\",\"number\":7.0}"), Outcome::Answer(false)));
    assert_eq!(
        response(&Outcome::Answer(false)),
        Some("{\"method\":\"isPrime\",\"prime\":false}\n".to_string())
    );
}

#[test]
fn extra_fields_are_ignored() {
    let out = handle_line("{\"number\":13,\"extra\":[1,2],\"method\":\"isPrime\"}");
    assert!(matches!(out, Outcome::Answer(true)));
}

#[test]
fn malformed_requests() {
    for line in [
        "{\"method\":\"isPrime\",\"number\":\"7\"}",
        "{\"method\":\"notPrime\",\"number\":7}",
        "{\"method\":\"isPrime\"}",
        "{\"number\":7}",
        "{}",
        "[1,2]",
        "not json",
        "{\"method\":\"isPrime\",\"number\":7",
    ] {
        assert!(matches!(handle_line(line), Outcome::Malformed), "{}", line);
    }
    assert_eq!(response(&Outcome::Malformed), Some("{\"error\":true}\n".to_string()));
}

#[test]
fn blank_lines_are_ignored() {
    assert!(matches!(handle_line(""), Outcome::Ignore));
    assert!(matches!(handle_line("  \t\r\n"), Outcome::Ignore));
    assert!(matches!(handle_line("\u{3000}\n"), Outcome::Ignore));
    assert_eq!(response(&Outcome::Ignore), None);
}
