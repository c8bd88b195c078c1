use protohackers::chat::{welcome, Room, Session};

fn texts(r: &[protohackers::chat::Delivery]) -> Vec<(u64, String)> {
    r.iter().map(|d| (d.to, d.text.clone())).collect()
}

#[test]
fn greeting() {
    assert_eq!(welcome(), "Welcome to budgetchat! What is your name?\n");
}

#[test]
fn joining_and_talking() {
    let mut room = Room::new();
    let mut alice = Session::AwaitingName;
    let r = room.on_line(1, &mut alice, "alice\n");
    assert!(!r.close);
    assert_eq!(texts(&r.deliveries), vec![(1, "* Users online: \n".to_string())]);

    let mut bob = Session::AwaitingName;
    let r = room.on_line(2, &mut bob, "  bob \r\n");
    assert_eq!(
        texts(&r.deliveries),
        vec![
            (1, "* bob joined the chat\n".to_string()),
            (2, "* Users online: alice\n".to_string()),
        ]
    );

    let mut carol = Session::AwaitingName;
    let r = room.on_line(3, &mut carol, "carol");
    assert_eq!(r.deliveries.last().unwrap().text, "* Users online: alice, bob\n");

    let r = room.on_line(2, &mut bob, " hello all \n");
    assert_eq!(
        texts(&r.deliveries),
        vec![(1, "[bob] hello all\n".to_string()), (3, "[bob] hello all\n".to_string())]
    );

    let r = room.on_line(2, &mut bob, "   \n");
    assert!(r.deliveries.is_empty());
}

#[test]
fn invalid_names_close_the_connection() {
    let mut room = Room::new();
    for name in ["\n", "bad name\n", "bad!\n"] {
        let mut s = Session::AwaitingName;
        let r = room.on_line(9, &mut s, name);
        assert!(r.close);
        assert_eq!(texts(&r.deliveries), vec![(9, "Please pick a valid name\n".to_string())]);
        assert!(matches!(s, Session::AwaitingName));
    }
    assert!(room.members.is_empty());
    let mut s = Session::AwaitingName;
    let r = room.on_line(9, &mut s, "Zoë42\n");
    assert!(!r.close);
}

#[test]
fn leaving_is_announced_and_undoes_joining() {
    let mut room = Room::new();
    let mut a = Session::AwaitingName;
    let mut b = Session::AwaitingName;
    room.on_line(1, &mut a, "alice");
    let members = room.members.clone();
    let names = room.names.clone();
    room.on_line(2, &mut b, "bob");
    let d = room.on_disconnect(2, &b);
    assert_eq!(texts(&d), vec![(1, "* bob left the chat\n".to_string())]);
    assert_eq!(room.members, members);
    assert_eq!(room.names, names);
}

#[test]
fn unnamed_connection_leaves_silently() {
    let mut room = Room::new();
    let mut a = Session::AwaitingName;
    room.on_line(1, &mut a, "alice");
    let d = room.on_disconnect(5, &Session::AwaitingName);
    assert!(d.is_empty());
    assert_eq!(room.names, vec!["alice".to_string()]);
}

#[test]
fn duplicate_names_leave_one_at_a_time() {
    let mut room = Room::new();
    let mut s1 = Session::AwaitingName;
    let mut s2 = Session::AwaitingName;
    let mut s3 = Session::AwaitingName;
    room.on_line(1, &mut s1, "sam");
    room.on_line(2, &mut s2, "tom");
    room.on_line(3, &mut s3, "sam");
    room.on_disconnect(1, &s1);
    assert_eq!(room.names, vec!["sam".to_string(), "tom".to_string()]);
    assert_eq!(room.members, vec![2, 3]);
}
