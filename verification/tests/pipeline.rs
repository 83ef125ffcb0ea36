use zenoh_rx::defrag::Defragmenter;
use zenoh_rx::ext::{DestinationType, QoSType, TargetType};
use zenoh_rx::request::{write_request, Mapping, Request, RequestBody, WireExpr};
use zenoh_rx::rx::{
    Channel, Close, Frame, FramePayload, KeepAlive, PeerId, Priority, Reliability, TeardownAction,
    TransportBody, TransportMessage, TransportUnicastInner,
};
use zenoh_rx::seqnum::SeqNum;
use zenoh_rx::TransportError;

fn msg(id: u64) -> Request {
    Request {
        id,
        wire_expr: WireExpr { key: 42, suffix: Vec::new() },
        mapping: Mapping::Receiver,
        payload: RequestBody { bytes: Vec::new() },
        ext_qos: QoSType { inner: 0 },
        ext_tstamp: None,
        ext_dst: DestinationType::Queryables,
        ext_target: TargetType::BestMatching,
    }
}

fn transport() -> TransportUnicastInner {
    // One conduit, 8-bit resolution, last seen sn 255 so that sn 0 is
    // the next expected.
    TransportUnicastInner::new(PeerId { id: 1 }, false, true, 8, 255)
}

fn frame(sn: u64, payload: FramePayload) -> TransportMessage {
    TransportMessage {
        body: TransportBody::Frame(Frame {
            channel: Channel { priority: Priority::Data, reliability: Reliability::Reliable },
            sn,
            payload,
        }),
    }
}

fn messages(ids: &[u64]) -> FramePayload {
    FramePayload::Messages { messages: ids.iter().map(|&i| msg(i)).collect() }
}

#[test]
fn in_order_frames_deliver_in_order() {
    let mut t = transport();
    let mut out: Vec<Request> = Vec::new();
    for (sn, ids) in [(0u64, vec![10u64, 11]), (1, vec![12]), (2, vec![13, 14])] {
        let r = t.receive_message(frame(sn, messages(&ids)), &mut out);
        assert_eq!(r, Ok(TeardownAction::Continue));
    }
    let got: Vec<u64> = out.iter().map(|m| m.id).collect();
    assert_eq!(got, vec![10, 11, 12, 13, 14]);
}

#[test]
fn sequence_drop() {
    // Frames 0 and 1 carry messages; a fragment then arrives with sn 3,
    // skipping 2. The callback must have seen the messages of 0 and 1
    // only, and the defragmenter must be empty after the sn-3 frame.
    let mut t = transport();
    let mut out: Vec<Request> = Vec::new();
    t.receive_message(frame(0, messages(&[10])), &mut out).unwrap();
    t.receive_message(frame(1, messages(&[11])), &mut out).unwrap();
    let r = t.receive_message(
        frame(3, FramePayload::Fragment { buffer: vec![0xff, 0xff], is_final: true }),
        &mut out,
    );
    assert!(r.is_err());
    let got: Vec<u64> = out.iter().map(|m| m.id).collect();
    assert_eq!(got, vec![10, 11]);
    assert!(t.conduit_rx[0].reliable.defrag.is_empty());
}

#[test]
fn out_of_window_frame_is_dropped_silently() {
    let mut t = transport();
    let mut out: Vec<Request> = Vec::new();
    t.receive_message(frame(0, messages(&[10])), &mut out).unwrap();
    // sn 200 is 200 ahead: outside the 8-bit forward window of 127.
    let r = t.receive_message(frame(200, messages(&[11])), &mut out);
    assert_eq!(r, Ok(TeardownAction::Continue));
    let got: Vec<u64> = out.iter().map(|m| m.id).collect();
    assert_eq!(got, vec![10]);
}

#[test]
fn fragment_reassembly() {
    // Three fragments with sn 10, 11, 12, final on the last; their
    // concatenation is one encoded message. The callback fires once
    // with it, and the defragmenter is empty afterwards.
    let m = msg(77);
    let mut bytes: Vec<u8> = Vec::new();
    write_request(&mut bytes, &m);
    let third = bytes.len() / 3;
    let b0 = bytes[..third].to_vec();
    let b1 = bytes[third..2 * third].to_vec();
    let b2 = bytes[2 * third..].to_vec();
    let mut t = TransportUnicastInner::new(PeerId { id: 1 }, false, true, 8, 9);
    let mut out: Vec<Request> = Vec::new();
    t.receive_message(frame(10, FramePayload::Fragment { buffer: b0, is_final: false }), &mut out)
        .unwrap();
    t.receive_message(frame(11, FramePayload::Fragment { buffer: b1, is_final: false }), &mut out)
        .unwrap();
    t.receive_message(frame(12, FramePayload::Fragment { buffer: b2, is_final: true }), &mut out)
        .unwrap();
    assert_eq!(out.len(), 1);
    assert_eq!(out[0], m);
    assert!(t.conduit_rx[0].reliable.defrag.is_empty());
}

#[test]
fn gap_mid_fragment_run_clears_and_errors() {
    let mut t = TransportUnicastInner::new(PeerId { id: 1 }, false, true, 8, 9);
    let mut out: Vec<Request> = Vec::new();
    t.receive_message(
        frame(10, FramePayload::Fragment { buffer: vec![1, 2], is_final: false }),
        &mut out,
    )
    .unwrap();
    // sn 12 skips 11: within the window, but not the expected next
    // fragment.
    let r = t.receive_message(
        frame(12, FramePayload::Fragment { buffer: vec![3], is_final: false }),
        &mut out,
    );
    assert_eq!(r, Err(TransportError::FragmentGap));
    assert!(out.is_empty());
    assert!(t.conduit_rx[0].reliable.defrag.is_empty());
}

#[test]
fn defragmentation_failure_surfaces() {
    let mut t = transport();
    let mut out: Vec<Request> = Vec::new();
    let r = t.receive_message(
        frame(0, FramePayload::Fragment { buffer: vec![0xff, 0xff, 0xff], is_final: true }),
        &mut out,
    );
    assert_eq!(r, Err(TransportError::Defragmentation));
    assert!(out.is_empty());
}

#[test]
fn unknown_conduit_is_an_error() {
    let mut t = transport();
    let mut out: Vec<Request> = Vec::new();
    let m = TransportMessage {
        body: TransportBody::Frame(Frame {
            channel: Channel { priority: Priority::Control, reliability: Reliability::Reliable },
            sn: 0,
            payload: messages(&[1]),
        }),
    };
    assert_eq!(t.receive_message(m, &mut out), Err(TransportError::UnknownConduit));
    assert!(out.is_empty());
}

#[test]
fn qos_transport_routes_by_priority() {
    let mut t = TransportUnicastInner::new(PeerId { id: 1 }, true, true, 8, 255);
    let mut out: Vec<Request> = Vec::new();
    let m = TransportMessage {
        body: TransportBody::Frame(Frame {
            channel: Channel { priority: Priority::Control, reliability: Reliability::BestEffort },
            sn: 0,
            payload: messages(&[5]),
        }),
    };
    assert_eq!(t.receive_message(m, &mut out), Ok(TeardownAction::Continue));
    assert_eq!(out.len(), 1);
    assert_eq!(t.conduit_rx[0].best_effort.sn.get(), 0);
}

#[test]
fn invalid_sn_is_an_error() {
    let mut t = transport();
    let mut out: Vec<Request> = Vec::new();
    let r = t.receive_message(frame(300, messages(&[1])), &mut out);
    assert_eq!(r, Err(TransportError::InvalidSn));
}

#[test]
fn no_callback_drops_messages() {
    let mut t = TransportUnicastInner::new(PeerId { id: 1 }, false, false, 8, 255);
    let mut out: Vec<Request> = Vec::new();
    t.receive_message(frame(0, messages(&[10])), &mut out).unwrap();
    assert!(out.is_empty());
}

#[test]
fn stale_close_ignored() {
    let mut t = transport();
    let mut out: Vec<Request> = Vec::new();
    let close = TransportMessage {
        body: TransportBody::Close(Close {
            pid: Some(PeerId { id: 99 }),
            reason: 0,
            link_only: false,
        }),
    };
    assert_eq!(t.receive_message(close, &mut out), Ok(TeardownAction::Continue));
    // The transport still receives afterwards.
    t.receive_message(frame(0, messages(&[10])), &mut out).unwrap();
    assert_eq!(out.len(), 1);
}

#[test]
fn close_matching_peer_tears_down() {
    let mut t = transport();
    let mut out: Vec<Request> = Vec::new();
    let link_only = TransportMessage {
        body: TransportBody::Close(Close {
            pid: Some(PeerId { id: 1 }),
            reason: 0,
            link_only: true,
        }),
    };
    assert_eq!(t.receive_message(link_only, &mut out), Ok(TeardownAction::DelLink));
    let full = TransportMessage {
        body: TransportBody::Close(Close { pid: None, reason: 2, link_only: false }),
    };
    assert_eq!(t.receive_message(full, &mut out), Ok(TeardownAction::DelTransport));
}

#[test]
fn keepalive_is_a_noop() {
    let mut t = transport();
    let mut out: Vec<Request> = Vec::new();
    let ka = TransportMessage { body: TransportBody::KeepAlive(KeepAlive) };
    assert_eq!(t.receive_message(ka, &mut out), Ok(TeardownAction::Continue));
    assert!(out.is_empty());
}

#[test]
fn precedes_window_has_half_range() {
    let s = SeqNum::new(8, 0);
    let mut count = 0;
    for next in 0u64..256 {
        if s.precedes(next).unwrap() {
            count += 1;
        }
    }
    // Exactly 2^(8-1) - 1 values follow.
    assert_eq!(count, 127);
    assert!(s.precedes(1).unwrap());
    assert!(s.precedes(127).unwrap());
    assert!(!s.precedes(0).unwrap());
    assert!(!s.precedes(128).unwrap());
    assert!(s.precedes(256).is_err());
}

#[test]
fn precedes_wraps_around() {
    let s = SeqNum::new(8, 250);
    assert!(s.precedes(251).unwrap());
    assert!(s.precedes(0).unwrap());
    assert!(s.precedes(120).unwrap());
    assert!(!s.precedes(250).unwrap());
    assert!(!s.precedes(130).unwrap());
}

#[test]
fn defragmenter_gap_clears() {
    let mut d = Defragmenter::new(8);
    d.sync(5);
    assert!(d.push(5, vec![1]).is_ok());
    assert!(d.push(6, vec![2]).is_ok());
    assert!(!d.is_empty());
    assert_eq!(d.push(9, vec![3]), Err(TransportError::FragmentGap));
    assert!(d.is_empty());
}
