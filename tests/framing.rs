use vanillachat::framing::{recv_msg, send_msg, FrameReader, RecvError, EOT};

#[test]
fn send_msg_appends_frame() {
    let mut out = vec![1u8];
    send_msg(&mut out, b"hello");
    assert_eq!(out, vec![1, b'h', b'e', b'l', b'l', b'o', EOT]);
}

#[test]
fn send_then_recv_round_trip() {
    let mut out = Vec::new();
    send_msg(&mut out, b"hi there");
    send_msg(&mut out, b"second");
    let (first, used) = recv_msg(&out).unwrap();
    assert_eq!(first, b"hi there".to_vec());
    assert_eq!(used, 9);
    let (second, used2) = recv_msg(&out[used..]).unwrap();
    assert_eq!(second, b"second".to_vec());
    assert_eq!(used + used2, out.len());
}

#[test]
fn recv_msg_on_closed_stream_is_unexpected_eof() {
    assert_eq!(recv_msg(&[]), Err(RecvError::UnexpectedEof));
}

#[test]
fn recv_msg_without_terminator_is_unexpected_eof() {
    assert_eq!(recv_msg(b"partial"), Err(RecvError::UnexpectedEof));
}

#[test]
fn recv_msg_empty_payload() {
    assert_eq!(recv_msg(&[EOT, b'x']), Ok((vec![], 1)));
}

#[test]
fn frame_reader_collects_bytes() {
    let mut r = FrameReader::new();
    assert_eq!(r.push(b'a'), None);
    assert_eq!(r.push(b'b'), None);
    assert_eq!(r.push(EOT), Some(vec![b'a', b'b']));
    assert_eq!(r.push(EOT), Some(vec![]));
}
