use vanillachat::session::{Session, WriterStep};

#[test]
fn exit_command_ends_session() {
    let mut s = Session::new(b"b-host".to_vec(), b"a-host".to_vec());
    assert!(s.running());
    assert!(matches!(s.on_line(b"/exit"), WriterStep::Exit));
    assert!(!s.running());
}

#[test]
fn typed_line_is_sent_and_echoed() {
    let mut s = Session::new(b"b-host".to_vec(), b"a-host".to_vec());
    match s.on_line(b"hello") {
        WriterStep::Send { frame, echo } => {
            assert_eq!(frame, b"hello\x04".to_vec());
            assert_eq!(echo, b"(b-host) hello".to_vec());
        }
        WriterStep::Exit => panic!("not an exit"),
    }
    assert!(s.running());
    assert!(matches!(s.on_line(b"/exit "), WriterStep::Send { .. }));
    assert!(matches!(s.on_line(b"/exi"), WriterStep::Send { .. }));
}

#[test]
fn peer_message_in_transcript() {
    let s = Session::new(b"b-host".to_vec(), b"a-host".to_vec());
    assert_eq!(s.on_message(b"hello"), b"(a-host) hello".to_vec());
}

#[test]
fn stop_ends_session() {
    let mut s = Session::new(vec![], vec![]);
    s.stop();
    assert!(!s.running());
}
