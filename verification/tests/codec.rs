//! Tests of the message codec.

use council_server::codec::{
    decode_notification, decode_request, encode_notification, encode_request, WireRequest,
};
use council_server::coordinator::Notification;

fn bytes(s: &str) -> Vec<u8> {
    s.as_bytes().to_vec()
}

#[test]
fn register_frame_round_trips() {
    let req = WireRequest::Register { reply_channel: bytes("worker-1"), change_set_id: 1 };
    let frame = encode_request(&req);
    assert_eq!(
        frame,
        bytes("kind=register;channel=worker-1;change_set=00000000000000000000000000000001")
    );
    assert_eq!(decode_request(&frame), Some(req));
}

#[test]
fn submit_frame_round_trips() {
    let req = WireRequest::GraphSubmitted {
        reply_channel: bytes("w1"),
        change_set_id: 0xab,
        dependency_graph: vec![(1, vec![2, 3]), (2, vec![]), (3, vec![])],
    };
    let frame = encode_request(&req);
    assert_eq!(
        frame,
        bytes(
            "kind=submit;channel=w1;change_set=000000000000000000000000000000ab;graph=\
             00000000000000000000000000000001:00000000000000000000000000000002,\
             00000000000000000000000000000003|00000000000000000000000000000002:|\
             00000000000000000000000000000003:"
        )
    );
    assert_eq!(decode_request(&frame), Some(req));
}

#[test]
fn processed_and_failed_frames_round_trip() {
    let a = WireRequest::ValueProcessed {
        reply_channel: bytes("w1"),
        change_set_id: 7,
        node_id: 9,
    };
    let b = WireRequest::ValueProcessingFailed {
        reply_channel: bytes("w2"),
        change_set_id: 7,
        node_id: u128::MAX,
    };
    let fa = encode_request(&a);
    let fb = encode_request(&b);
    assert_eq!(decode_request(&fa), Some(a));
    assert_eq!(decode_request(&fb), Some(b));
}

#[test]
fn cancel_frame_round_trips() {
    let req = WireRequest::Cancel { reply_channel: bytes("w9"), change_set_id: 3 };
    let frame = encode_request(&req);
    assert_eq!(decode_request(&frame), Some(req));
}

#[test]
fn malformed_request_frames_are_dropped() {
    assert_eq!(decode_request(&bytes("")), None);
    assert_eq!(decode_request(&bytes("kind=register;channel=w1")), None);
    assert_eq!(
        decode_request(&bytes(
            "kind=register;channel=w1;change_set=0000000000000000000000000000000G"
        )),
        None
    );
    assert_eq!(
        decode_request(&bytes(
            "kind=register;channel=w1;change_set=0000000000000000000000000000000A"
        )),
        None
    );
    assert_eq!(
        decode_request(&bytes(
            "kind=register;channel=w1;change_set=00000000000000000000000000000001junk"
        )),
        None
    );
    assert_eq!(
        decode_request(&bytes(
            "kind=submit;channel=w1;change_set=00000000000000000000000000000001;graph=123"
        )),
        None
    );
}

#[test]
fn notification_frames_round_trip() {
    let all = vec![
        Notification::Continue,
        Notification::ProcessValue { node_id: 0 },
        Notification::ValueAvailable { node_id: 0xdeadbeef },
        Notification::ValueProcessingFailed { node_id: u128::MAX },
    ];
    for n in all {
        let frame = encode_notification(&n);
        assert_eq!(decode_notification(&frame), Some(n));
    }
    assert_eq!(
        encode_notification(&Notification::ProcessValue { node_id: 0xdeadbeef }),
        bytes("kind=process_value;node=000000000000000000000000deadbeef")
    );
}

#[test]
fn malformed_notification_frames_are_dropped() {
    assert_eq!(decode_notification(&bytes("")), None);
    assert_eq!(decode_notification(&bytes("kind=continue ")), None);
    assert_eq!(
        decode_notification(&bytes("kind=process_value;node=0000000000000000000000000000000")),
        None
    );
    assert_eq!(
        decode_notification(&bytes(
            "kind=process_value;node=0000000000000000000000000000000Z"
        )),
        None
    );
}
