use protohackers::prices::{decode_request, i32_to_be, PriceLog, Request};

fn message(kind: u8, a: i32, b: i32) -> [u8; 9] {
    let mut m = [0u8; 9];
    m[0] = kind;
    m[1..5].copy_from_slice(&a.to_be_bytes());
    m[5..9].copy_from_slice(&b.to_be_bytes());
    m
}

#[test]
fn session_from_the_protocol_description() {
    let mut log = PriceLog::new();
    assert_eq!(log.handle_message(&message(b'I', 12345, 101)), None);
    assert_eq!(log.handle_message(&message(b'I', 12346, 102)), None);
    assert_eq!(log.handle_message(&message(b'I', 12347, 100)), None);
    assert_eq!(log.handle_message(&message(b'I', 40960, 5)), None);
    assert_eq!(log.handle_message(&message(b'Q', 12288, 16384)), Some(101i32.to_be_bytes()));
}

#[test]
fn empty_and_reversed_ranges_answer_zero() {
    let mut log = PriceLog::new();
    assert_eq!(log.query(0, 100), 0);
    log.insert(50, 7);
    assert_eq!(log.query(100, 0), 0);
    assert_eq!(log.query(51, 100), 0);
    assert_eq!(log.query(50, 50), 7);
}

#[test]
fn mean_rounds_toward_zero() {
    let mut log = PriceLog::new();
    log.insert(1, -5);
    log.insert(2, -6);
    assert_eq!(log.query(1, 2), -5);
    let mut log2 = PriceLog::new();
    log2.insert(1, 5);
    log2.insert(2, 6);
    assert_eq!(log2.query(1, 2), 5);
}

#[test]
fn extreme_prices_do_not_overflow() {
    let mut log = PriceLog::new();
    for t in 0..10 {
        log.insert(t, i32::MAX);
    }
    assert_eq!(log.query(i32::MIN, i32::MAX), i32::MAX);
    let mut low = PriceLog::new();
    for t in 0..10 {
        low.insert(t, i32::MIN);
    }
    assert_eq!(low.query(i32::MIN, i32::MAX), i32::MIN);
}

#[test]
fn insert_outside_range_leaves_answer() {
    let mut log = PriceLog::new();
    log.insert(10, 100);
    log.insert(20, 200);
    let before = log.query(0, 25);
    log.insert(30, 1_000_000);
    assert_eq!(log.query(0, 25), before);
}

#[test]
fn decoding_and_unknown_messages() {
    match decode_request(&message(b'I', -3, 70000)) {
        Request::Insert { timestamp, price } => {
            assert_eq!(timestamp, -3);
            assert_eq!(price, 70000);
        }
        _ => panic!("expected an insert"),
    }
    match decode_request(&message(b'Q', i32::MIN, i32::MAX)) {
        Request::Query { min, max } => {
            assert_eq!(min, i32::MIN);
            assert_eq!(max, i32::MAX);
        }
        _ => panic!("expected a query"),
    }
    assert!(matches!(decode_request(&message(b'X', 1, 2)), Request::Other));
    let mut log = PriceLog::new();
    assert_eq!(log.handle_message(&message(b'X', 1, 2)), None);
    assert_eq!(log.entries.len(), 0);
    assert_eq!(i32_to_be(-2), [0xff, 0xff, 0xff, 0xfe]);
    assert_eq!(i32_to_be(258), [0, 0, 1, 2]);
}
