use protohackers::kvstore::Database;

#[test]
fn version_is_preset() {
    let mut db = Database::new();
    assert_eq!(db.handle("version"), Some("version=evans awesome database v1".to_string()));
}

#[test]
fn read_after_write() {
    let mut db = Database::new();
    assert_eq!(db.handle("foo=bar"), None);
    assert_eq!(db.handle("foo"), Some("foo=bar".to_string()));
    assert_eq!(db.handle("foo=baz"), None);
    assert_eq!(db.handle("foo"), Some("foo=baz".to_string()));
}

#[test]
fn value_may_hold_equals_and_key_may_be_empty() {
    let mut db = Database::new();
    db.handle("foo=bar=baz");
    assert_eq!(db.handle("foo"), Some("foo=bar=baz".to_string()));
    db.handle("=empty");
    assert_eq!(db.handle(""), Some("=empty".to_string()));
    db.handle("empty=");
    assert_eq!(db.handle("empty"), Some("empty=".to_string()));
}

#[test]
fn version_cannot_be_changed() {
    let mut db = Database::new();
    assert_eq!(db.handle("version=hacked"), None);
    assert_eq!(db.handle("version"), Some("version=evans awesome database v1".to_string()));
}

#[test]
fn missing_key_gets_no_reply() {
    let mut db = Database::new();
    assert_eq!(db.handle("missing"), None);
    db.handle("a=1");
    assert_eq!(db.handle("b"), None);
    assert_eq!(db.get(&"a".to_string()), Some("1".to_string()));
}

#[test]
fn datagrams_are_decoded() {
    let mut db = Database::new();
    assert_eq!(db.handle_datagram(b"k=\xffv"), None);
    assert_eq!(db.handle_datagram(b"k"), Some("k=\u{fffd}v".to_string()));
    assert_eq!(db.handle_datagram(b"ok=1"), None);
    assert_eq!(db.handle_datagram(b"ok"), Some("ok=1".to_string()));
    assert_eq!(db.handle_datagram(b"a\xc3=2"), None);
    assert_eq!(db.handle("a\u{fffd}"), Some("a\u{fffd}=2".to_string()));
}

#[test]
fn storing_one_key_leaves_others() {
    let mut db = Database::new();
    db.handle("a=1");
    db.handle("b=2");
    db.handle("a=3");
    assert_eq!(db.handle("b"), Some("b=2".to_string()));
    assert_eq!(db.handle("a"), Some("a=3".to_string()));
    assert_eq!(db.handle("version"), Some("version=evans awesome database v1".to_string()));
}
