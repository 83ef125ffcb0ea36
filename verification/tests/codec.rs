use zenoh_rx::buffer::Reader;
use zenoh_rx::ext::{DestinationType, QoSType, TargetType, TimestampType};
use zenoh_rx::request::{read_request, write_request, Mapping, Request, RequestBody, WireExpr};
use zenoh_rx::zint::{read_zint, write_zint};

fn minimal_request() -> Request {
    Request {
        id: 7,
        wire_expr: WireExpr { key: 42, suffix: Vec::new() },
        mapping: Mapping::Receiver,
        payload: RequestBody { bytes: Vec::new() },
        ext_qos: QoSType { inner: 0 },
        ext_tstamp: None,
        ext_dst: DestinationType::Queryables,
        ext_target: TargetType::BestMatching,
    }
}

fn encode(x: &Request) -> Vec<u8> {
    let mut w: Vec<u8> = Vec::new();
    write_request(&mut w, x);
    w
}

fn decode_all(bytes: Vec<u8>) -> Request {
    let mut r = Reader::new(bytes);
    let m = read_request(&mut r).expect("decode failed");
    assert_eq!(r.remaining_len(), 0, "decoder left bytes behind");
    m
}

#[test]
fn minimal_request_wire_shape() {
    let m = minimal_request();
    let bytes = encode(&m);
    // Header with Z=0, M=0, N=0, then id 7, key 42, empty payload.
    assert_eq!(bytes, vec![0x1c, 0x07, 0x2a, 0x00]);
    let back = decode_all(bytes);
    assert_eq!(back, m);
}

#[test]
fn request_round_trip_with_all_extensions() {
    let m = Request {
        id: 123456,
        wire_expr: WireExpr { key: 9, suffix: b"/light/kitchen".to_vec() },
        mapping: Mapping::Sender,
        payload: RequestBody { bytes: vec![1, 2, 3, 4, 5] },
        ext_qos: QoSType { inner: 5 },
        ext_tstamp: Some(TimestampType { time: 0xDEAD, id: vec![9, 9, 9] }),
        ext_dst: DestinationType::Subscribers,
        ext_target: TargetType::All,
    };
    let back = decode_all(encode(&m));
    assert_eq!(back, m);
}

#[test]
fn request_with_target_complete() {
    let m = Request { ext_target: TargetType::Complete(5), ..minimal_request() };
    let bytes = encode(&m);
    // The target extension rides as id 4 with a Z64 body holding 3+5.
    let pos = bytes.iter().position(|&b| b == 0x24).expect("no target extension");
    assert_eq!(bytes[pos + 1], 8);
    let back = decode_all(bytes);
    assert_eq!(back.ext_target, TargetType::Complete(5));
    assert_eq!(back, m);
}

#[test]
fn unknown_extension_is_skipped() {
    // A request with QoS 5 and a timestamp, and an unknown ZBuf
    // extension of four bytes spliced between the two.
    let bytes = vec![
        0x9c, // header: REQUEST, Z
        7,    // id
        42,   // key
        0xa1, // QoS extension, more follows
        5,    // QoS value
        0xdf, // unknown id 0x1f, ENC=ZBuf, more follows
        4,    // unknown body length
        0xde, 0xad, 0xbe, 0xef, // unknown body
        0x42, // Timestamp extension, last
        3,    // body length
        9,    // time
        1, 2, // originator id
        0,    // empty payload
    ];
    let m = decode_all(bytes);
    let expected = Request {
        ext_qos: QoSType { inner: 5 },
        ext_tstamp: Some(TimestampType { time: 9, id: vec![1, 2] }),
        ..minimal_request()
    };
    assert_eq!(m, expected);
}

#[test]
fn reserved_extension_encoding_fails() {
    let bytes = vec![
        0x9c, // header: REQUEST, Z
        7, 42,   // id, key
        0x7f, // extension with ENC = reserved
        0,    // would-be payload
    ];
    let mut r = Reader::new(bytes);
    assert!(read_request(&mut r).is_err());
}

#[test]
fn wrong_message_id_fails() {
    let mut r = Reader::new(vec![0x1b, 7, 42, 0]);
    assert!(read_request(&mut r).is_err());
}

#[test]
fn varint_round_trips() {
    for n in [0u64, 1, 127, 128, 300, 16383, 16384, u64::MAX - 1, u64::MAX] {
        let mut w: Vec<u8> = Vec::new();
        write_zint(&mut w, n);
        assert!(w.len() <= 10);
        let mut r = Reader::new(w);
        assert_eq!(read_zint(&mut r).unwrap(), n);
        assert_eq!(r.remaining_len(), 0);
    }
}

#[test]
fn varint_single_bytes() {
    let mut w: Vec<u8> = Vec::new();
    write_zint(&mut w, 5);
    assert_eq!(w, vec![5]);
    let mut w2: Vec<u8> = Vec::new();
    write_zint(&mut w2, 300);
    assert_eq!(w2, vec![0xac, 0x02]);
}

#[test]
fn varint_overflowing_encoding_fails() {
    // Ten continuation bytes put the tenth group at bit 63; a second
    // bit there overflows 64 bits.
    let mut bytes = vec![0xff; 9];
    bytes.push(0x02);
    let mut r = Reader::new(bytes);
    assert!(read_zint(&mut r).is_err());
}

#[test]
fn varint_zero_padding_reencodes_canonically() {
    // A non-canonical encoding of 7 decodes, and re-encoding it yields
    // the canonical single byte, which decodes to the same value.
    let mut r = Reader::new(vec![0x87, 0x00]);
    let v = read_zint(&mut r).unwrap();
    assert_eq!(v, 7);
    let mut w: Vec<u8> = Vec::new();
    write_zint(&mut w, v);
    assert_eq!(w, vec![0x07]);
}

#[test]
fn canonical_reencode_of_decoded_request() {
    // id encoded non-canonically; decode, re-encode, decode again.
    let bytes = vec![0x1c, 0x87, 0x00, 42, 0];
    let mut r = Reader::new(bytes);
    let m = read_request(&mut r).unwrap();
    assert_eq!(m.id, 7);
    let again = decode_all(encode(&m));
    assert_eq!(again, m);
}

#[test]
fn extension_subsets_round_trip() {
    let variants: Vec<Request> = vec![
        Request { ext_qos: QoSType { inner: 1 }, ..minimal_request() },
        Request { ext_dst: DestinationType::Subscribers, ..minimal_request() },
        Request { ext_target: TargetType::AllComplete, ..minimal_request() },
        Request {
            ext_tstamp: Some(TimestampType { time: 1, id: vec![] }),
            ..minimal_request()
        },
        Request {
            ext_qos: QoSType { inner: 3 },
            ext_target: TargetType::Complete(0),
            ..minimal_request()
        },
    ];
    for m in variants {
        let back = decode_all(encode(&m));
        assert_eq!(back, m);
    }
}

#[test]
fn short_input_fails() {
    let m = minimal_request();
    let mut truncated = encode(&m);
    // The minimal request ends with its payload length; dropping it
    // leaves the decoder short.
    truncated.pop();
    let mut r = Reader::new(truncated);
    assert!(read_request(&mut r).is_err());
}
