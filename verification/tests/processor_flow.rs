use ccanvas::processor::MessageTarget;
use ccanvas::processor::ProcAction;
use ccanvas::processor::ProcessorEvent;
use ccanvas::processor::handle_event;
use ccanvas::processor::handle_packet;
use ccanvas::registry::Registry;
use ccanvas::wire::ConnPacket;
use ccanvas::wire::RejReason;
use ccanvas::wire::decode_packet;
use ccanvas::wire::encode_packet;

fn req(label: &[u8], parent: &[u8], path: &[u8], echo: u32) -> ConnPacket {
    ConnPacket::ReqConn {
        socket: Some((path.to_vec(), echo)),
        label: label.to_vec(),
        parent: parent.to_vec(),
    }
}

#[test]
fn a_fresh_handshake_connects_and_approves() {
    let mut r = Registry::new();
    let step = handle_packet(&mut r, 5, req(b"a", b"", b"/tmp/a", 7));
    assert!(!step.terminate);
    assert_eq!(step.actions.len(), 2);
    match &step.actions[0] {
        ProcAction::Connect { id, path } => {
            assert_eq!(*id, 5);
            assert_eq!(path, &b"/tmp/a".to_vec());
        },
        _ => panic!("expected a connect action"),
    }
    match &step.actions[1] {
        ProcAction::Send { target: MessageTarget::One(t), bytes } => {
            assert_eq!(*t, 5);
            assert!(matches!(decode_packet(bytes), Some(ConnPacket::ApprConn { echo: 7 })));
        },
        _ => panic!("expected the approval"),
    }
    assert_eq!(r.get(5).unwrap().parent, 0);
}

#[test]
fn a_duplicate_id_is_rejected_on_the_offered_path() {
    let mut r = Registry::new();
    handle_packet(&mut r, 5, req(b"a", b"", b"/tmp/a", 1));
    // a second request reusing the id: the rejection carries the echo and
    // names the id as the reason
    let step = handle_packet(&mut r, 5, req(b"b", b"", b"/tmp/a", 7));
    assert_eq!(step.actions.len(), 1);
    match &step.actions[0] {
        ProcAction::Send { target: MessageTarget::PathStr(p), bytes } => {
            assert_eq!(p, &b"/tmp/a".to_vec());
            match decode_packet(bytes) {
                Some(ConnPacket::RejConn { echo, reason }) => {
                    assert_eq!(echo, 7);
                    assert_eq!(reason, RejReason::Id);
                },
                _ => panic!("expected the rejection"),
            }
        },
        _ => panic!("expected a send to the offered path"),
    }
    // a duplicate label rejects the same way, an unknown parent with Parent
    let step2 = handle_packet(&mut r, 6, req(b"a", b"", b"/tmp/c", 9));
    match decode_packet(match &step2.actions[0] {
        ProcAction::Send { bytes, .. } => bytes,
        _ => panic!("expected a send"),
    }) {
        Some(ConnPacket::RejConn { reason, .. }) => assert_eq!(reason, RejReason::Id),
        _ => panic!("expected the rejection"),
    }
    let step3 = handle_packet(&mut r, 6, req(b"c", b"nosuch", b"/tmp/c", 9));
    match decode_packet(match &step3.actions[0] {
        ProcAction::Send { bytes, .. } => bytes,
        _ => panic!("expected a send"),
    }) {
        Some(ConnPacket::RejConn { reason, .. }) => assert_eq!(reason, RejReason::Parent),
        _ => panic!("expected the rejection"),
    }
}

#[test]
fn a_send_only_component_gets_no_approval() {
    let mut r = Registry::new();
    let step = handle_packet(
        &mut r,
        3,
        ConnPacket::ReqConn { socket: None, label: b"s".to_vec(), parent: Vec::new() },
    );
    assert!(step.actions.is_empty());
    assert!(r.get(3).is_some());
}

#[test]
fn terminate_broadcasts_to_every_connection_and_stops() {
    let mut r = Registry::new();
    handle_packet(&mut r, 5, req(b"a", b"", b"/tmp/a", 1));
    handle_packet(&mut r, 6, req(b"b", b"", b"/tmp/b", 2));
    let step = handle_packet(&mut r, 6, ConnPacket::Terminate);
    assert!(step.terminate);
    assert_eq!(step.actions.len(), 1);
    match &step.actions[0] {
        ProcAction::Send { target: MessageTarget::Multiple(ids), bytes } => {
            assert_eq!(ids, &vec![0, 5, 6]);
            assert!(matches!(decode_packet(bytes), Some(ConnPacket::Terminate)));
        },
        _ => panic!("expected the broadcast"),
    }
}

#[test]
fn a_disconnect_removes_the_component() {
    let mut r = Registry::new();
    handle_packet(&mut r, 5, req(b"a", b"", b"/tmp/a", 1));
    let step = handle_event(&mut r, ProcessorEvent::Disconnect { token: 5 });
    assert!(!step.terminate);
    assert!(step.actions.is_empty());
    assert!(r.get(5).is_none());
    assert!(r.id_of_label(&b"a".to_vec()).is_none());
}

#[test]
fn an_unreadable_frame_is_dropped_silently() {
    let mut r = Registry::new();
    let step = handle_event(
        &mut r,
        ProcessorEvent::Packet { token: 5, data: vec![99, 1, 2] },
    );
    assert!(!step.terminate);
    assert!(step.actions.is_empty());
    assert!(r.get(5).is_none());
}
