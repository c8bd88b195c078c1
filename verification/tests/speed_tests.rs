use protohackers::speed::{
    error_message, heartbeat_due, message_kind, plate_from_bytes, u16_from_be, u32_from_be,
    MessageKind, SpeedState, HEARTBEAT,
};

fn plate(s: &str) -> String {
    s.to_string()
}

#[test]
fn ticket_from_the_protocol_description() {
    let mut st = SpeedState::new();
    assert!(st.register_camera(1, 123, 8, 60));
    assert!(st.register_camera(2, 123, 9, 60));
    assert!(st.register_dispatcher(3, vec![123]));
    assert_eq!(st.record_plate(1, plate("UN1X"), 0), Some((123, 60)));
    assert_eq!(st.record_plate(2, plate("UN1X"), 45), Some((123, 60)));
    let p = st.plan_ticket(&plate("UN1X"), 123, 60, 0).expect("a ticket is owed");
    assert_eq!(p.dispatcher, 3);
    assert_eq!(p.speed, 8000);
    assert_eq!((p.mile1, p.timestamp1, p.mile2, p.timestamp2), (8, 0, 9, 45));
    assert_eq!(
        p.message(),
        vec![
            0x21, 0x04, 0x55, 0x4e, 0x31, 0x58, 0x00, 0x7b, 0x00, 0x08, 0x00, 0x00, 0x00, 0x00,
            0x00, 0x09, 0x00, 0x00, 0x00, 0x2d, 0x1f, 0x40
        ]
    );
    st.commit_ticket(&p);
    assert!(st.plan_ticket(&plate("UN1X"), 123, 60, 0).is_none());
}

#[test]
fn no_dispatcher_no_ticket_until_one_connects() {
    let mut st = SpeedState::new();
    st.register_camera(1, 5, 0, 50);
    st.register_camera(2, 5, 10, 50);
    st.record_plate(2, plate("AB12"), 300);
    st.record_plate(1, plate("AB12"), 0);
    assert!(st.plan_ticket(&plate("AB12"), 5, 50, 0).is_none());
    assert!(st.register_dispatcher(7, vec![4, 5]));
    let pending = st.observations_on_roads(&vec![5]);
    assert_eq!(pending.len(), 2);
    let p = st.plan_ticket(&plate("AB12"), 5, 50, 0).unwrap();
    // Sightings are ordered by time: mile 0 at 0, then mile 10 at 300 s: 120 mph.
    assert_eq!((p.timestamp1, p.timestamp2, p.speed), (0, 300, 12000));
    assert_eq!(p.dispatcher, 7);
}

#[test]
fn slow_cars_and_simultaneous_sightings_get_nothing() {
    let mut st = SpeedState::new();
    st.register_dispatcher(9, vec![1]);
    st.register_camera(1, 1, 0, 100);
    st.register_camera(2, 1, 1, 100);
    st.record_plate(1, plate("SLOW"), 0);
    st.record_plate(2, plate("SLOW"), 3600);
    assert!(st.plan_ticket(&plate("SLOW"), 1, 100, 0).is_none());
    st.record_plate(1, plate("SAME"), 10);
    st.record_plate(2, plate("SAME"), 10);
    assert!(st.plan_ticket(&plate("SAME"), 1, 100, 0).is_none());
}

#[test]
fn speed_saturates() {
    let mut st = SpeedState::new();
    st.register_dispatcher(9, vec![1]);
    st.register_camera(1, 1, 0, 10);
    st.register_camera(2, 1, 65535, 10);
    st.record_plate(1, plate("FAST"), 0);
    st.record_plate(2, plate("FAST"), 1);
    let p = st.plan_ticket(&plate("FAST"), 1, 10, 0).unwrap();
    assert_eq!(p.speed, 65535);
}

#[test]
fn one_ticket_per_day_across_days() {
    let mut st = SpeedState::new();
    st.register_dispatcher(9, vec![1]);
    st.register_camera(1, 1, 0, 60);
    st.register_camera(2, 1, 100, 60);
    // Spans day 0 and day 1.
    st.record_plate(1, plate("NIGHT"), 86000);
    st.record_plate(2, plate("NIGHT"), 87000);
    let p = st.plan_ticket(&plate("NIGHT"), 1, 60, 0).unwrap();
    assert_eq!((p.day1, p.day2), (0, 1));
    st.commit_ticket(&p);
    assert_eq!(st.tickets.len(), 2);
    // Another violation on day 1 is not ticketed again.
    st.record_plate(1, plate("NIGHT"), 88000);
    assert!(st.plan_ticket(&plate("NIGHT"), 1, 60, 0).is_none());
    // A later window can still be planned when the earlier one failed to deliver.
    let mut st2 = SpeedState::new();
    st2.register_dispatcher(9, vec![1]);
    st2.register_camera(1, 1, 0, 60);
    st2.register_camera(2, 1, 100, 60);
    st2.record_plate(1, plate("X"), 0);
    st2.record_plate(2, plate("X"), 1000);
    st2.record_plate(1, plate("X"), 2000);
    let first = st2.plan_ticket(&plate("X"), 1, 60, 0).unwrap();
    assert_eq!(first.window, 0);
    let second = st2.plan_ticket(&plate("X"), 1, 60, first.window + 1).unwrap();
    assert_eq!(second.window, 1);
}

#[test]
fn registration_errors() {
    let mut st = SpeedState::new();
    assert!(st.want_heartbeat(1, 10));
    assert!(!st.want_heartbeat(1, 20));
    assert_eq!(st.heartbeats.len(), 1);
    assert!(st.register_camera(2, 1, 1, 1));
    assert!(!st.register_camera(2, 1, 1, 1));
    assert!(!st.register_dispatcher(2, vec![1]));
    assert_eq!(st.dispatchers.len(), 1);
    assert!(st.record_plate(5, plate("NOPE"), 1).is_none());
    st.disconnect(2);
    assert!(st.cameras.is_empty());
    assert!(st.dispatchers.is_empty());
    assert_eq!(st.heartbeats.len(), 1);
}

#[test]
fn wire_helpers() {
    assert!(matches!(message_kind(0x20), MessageKind::Plate));
    assert!(matches!(message_kind(0x40), MessageKind::WantHeartbeat));
    assert!(matches!(message_kind(0x80), MessageKind::IAmCamera));
    assert!(matches!(message_kind(0x81), MessageKind::IAmDispatcher));
    assert!(matches!(message_kind(0x41), MessageKind::Unknown));
    assert_eq!(error_message(), vec![0x10, 0x03, b'b', b'a', b'd']);
    assert_eq!(HEARTBEAT, 0x41);
    assert_eq!(u16_from_be([0x01, 0x02]), 258);
    assert_eq!(u32_from_be([0x00, 0x00, 0x01, 0x2c]), 300);
    assert!(heartbeat_due(10, 20));
    assert!(!heartbeat_due(10, 21));
    assert!(!heartbeat_due(0, 0));
    assert_eq!(plate_from_bytes(&[0x41, 0x42, 0xe9]), "AB\u{e9}");
}

#[test]
fn plate_with_high_bytes_is_sent_as_utf8() {
    let mut st = SpeedState::new();
    st.register_dispatcher(9, vec![1]);
    st.register_camera(1, 1, 0, 1);
    st.register_camera(2, 1, 10, 1);
    let p8 = plate_from_bytes(&[0xe9]);
    st.record_plate(1, p8.clone(), 0);
    st.record_plate(2, p8.clone(), 100);
    let p = st.plan_ticket(&p8, 1, 1, 0).unwrap();
    let m = p.message();
    assert_eq!(&m[0..4], &[0x21, 0x02, 0xc3, 0xa9]);
}

#[test]
fn heartbeats_due_by_interval() {
    let mut st = SpeedState::new();
    st.want_heartbeat(1, 10);
    st.want_heartbeat(2, 0);
    st.want_heartbeat(3, 4);
    assert_eq!(st.due_heartbeats(0), vec![1, 3]);
    assert_eq!(st.due_heartbeats(20), vec![1, 3]);
    assert_eq!(st.due_heartbeats(8), vec![3]);
    assert_eq!(st.due_heartbeats(7), Vec::<u64>::new());
}
