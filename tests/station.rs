use c8488::frame::MessageError;
use c8488::station::{Outcome, Station};

fn frame(typ: u8, total: u8, index: u8, payload: &[u8]) -> Vec<u8> {
    let mut f = vec![0u8; 64];
    f[0] = typ;
    f[5] = (total << 4) | index;
    f[6] = payload.len() as u8;
    f[7..7 + payload.len()].copy_from_slice(payload);
    f[63] = 0xfd;
    f
}

fn line_of(o: Outcome) -> String {
    match o {
        Outcome::Line(s) => s,
        other => panic!("expected a line, got {other:?}"),
    }
}

#[test]
fn completed_reading_becomes_a_line() {
    let mut s = Station::new("s1", 0);
    assert!(matches!(s.on_frame(&frame(0xfe, 2, 1, b"0 2023-05-01 ")), Outcome::Pending));
    let o = s.on_frame(&frame(0xfe, 2, 2, b"12:30 -.- 45"));
    assert_eq!(line_of(o), "weather,station=s1 indoor_humidity=45");
    let o = s.on_frame(&frame(0xfe, 1, 1, b"0 d t 1 2"));
    assert_eq!(line_of(o), "weather,station=s1 indoor_temp=1,indoor_humidity=2");
}

#[test]
fn readings_are_throttled() {
    let mut s = Station::new("s1", 2);
    let f = frame(0xfe, 1, 1, b"0 d t 1");
    assert!(matches!(s.on_frame(&f), Outcome::Line(_)));
    assert!(matches!(s.on_frame(&f), Outcome::Throttled));
    assert!(matches!(s.on_frame(&f), Outcome::Throttled));
    assert!(matches!(s.on_frame(&f), Outcome::Line(_)));
}

#[test]
fn other_types_are_handed_back() {
    let mut s = Station::new("s1", 0);
    match s.on_frame(&frame(0xfb, 1, 1, b"a=1&b=2")) {
        Outcome::Unknown(t, body) => assert_eq!((t, body.as_str()), (0xfb, "a=1&b=2")),
        other => panic!("unexpected {other:?}"),
    }
}

#[test]
fn broken_transport_is_fatal() {
    let mut s = Station::new("s1", 0);
    assert!(matches!(s.on_frame(&[0u8; 10]), Outcome::Fatal));
}

#[test]
fn sequencing_faults_restart_assembly() {
    let mut s = Station::new("s1", 0);
    assert!(matches!(s.on_frame(&frame(0xfe, 2, 1, b"0 d ")), Outcome::Pending));
    assert!(matches!(
        s.on_frame(&frame(0xfe, 2, 1, b"0 d ")),
        Outcome::Resync(MessageError::SequenceError)
    ));
    assert!(matches!(s.on_frame(&frame(0xfe, 2, 2, b"t 5")), Outcome::Resync(MessageError::SequenceError)));
    assert!(matches!(s.on_frame(&frame(0xfe, 2, 1, b"0 d ")), Outcome::Pending));
    assert_eq!(line_of(s.on_frame(&frame(0xfe, 2, 2, b"t 5"))), "weather,station=s1 indoor_temp=5");
}
