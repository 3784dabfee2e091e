use ccanvas::wire::ConnPacket;
use ccanvas::wire::RejReason;
use ccanvas::wire::decode_packet;
use ccanvas::wire::encode_packet;

#[test]
fn terminate_round_trips() {
    let bytes = encode_packet(&ConnPacket::Terminate);
    assert_eq!(bytes, vec![4u8]);
    assert!(matches!(decode_packet(&bytes), Some(ConnPacket::Terminate)));
}

#[test]
fn approval_round_trips() {
    let bytes = encode_packet(&ConnPacket::ApprConn { echo: 7 });
    assert_eq!(bytes, vec![2u8, 7, 0, 0, 0]);
    match decode_packet(&bytes) {
        Some(ConnPacket::ApprConn { echo }) => assert_eq!(echo, 7),
        _ => panic!("expected the approval back"),
    }
}

#[test]
fn rejection_round_trips_with_its_reason() {
    for (reason, tag) in [(RejReason::Id, 0u8), (RejReason::Parent, 1u8)] {
        let bytes = encode_packet(&ConnPacket::RejConn { echo: 513, reason });
        assert_eq!(bytes, vec![3u8, 1, 2, 0, 0, tag]);
        match decode_packet(&bytes) {
            Some(ConnPacket::RejConn { echo, reason: r2 }) => {
                assert_eq!(echo, 513);
                assert_eq!(r2, reason);
            },
            _ => panic!("expected the rejection back"),
        }
    }
}

#[test]
fn connection_requests_round_trip() {
    let p = ConnPacket::ReqConn {
        socket: Some((b"/tmp/a".to_vec(), 7)),
        label: b"a".to_vec(),
        parent: Vec::new(),
    };
    let bytes = encode_packet(&p);
    match decode_packet(&bytes) {
        Some(ConnPacket::ReqConn { socket, label, parent }) => {
            let (path, echo) = socket.unwrap();
            assert_eq!(path, b"/tmp/a".to_vec());
            assert_eq!(echo, 7);
            assert_eq!(label, b"a".to_vec());
            assert!(parent.is_empty());
        },
        _ => panic!("expected the request back"),
    }
    let q = ConnPacket::ReqConn { socket: None, label: b"x".to_vec(), parent: b"a".to_vec() };
    let bytes2 = encode_packet(&q);
    match decode_packet(&bytes2) {
        Some(ConnPacket::ReqConn { socket, label, parent }) => {
            assert!(socket.is_none());
            assert_eq!(label, b"x".to_vec());
            assert_eq!(parent, b"a".to_vec());
        },
        _ => panic!("expected the request back"),
    }
}

#[test]
fn malformed_frames_are_dropped() {
    assert!(decode_packet(&Vec::new()).is_none());
    assert!(decode_packet(&vec![9u8]).is_none());
    assert!(decode_packet(&vec![2u8, 1]).is_none());
    // trailing garbage refuses the frame
    let mut bytes = encode_packet(&ConnPacket::Terminate);
    bytes.push(0);
    assert!(decode_packet(&bytes).is_none());
    // a bad rejection reason refuses the frame
    assert!(decode_packet(&vec![3u8, 0, 0, 0, 0, 9]).is_none());
}
