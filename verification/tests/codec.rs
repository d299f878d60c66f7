use skill_register::messages::{
    DecodeError, MsgConnect, MsgNotification, MsgNotificationResponse, MsgSkillClose,
    MsgSkillRequest, NotificationItem, ResponseItem,
};
use skill_register::wire::{
    decode_connect, decode_notification, decode_skill_close, decode_skill_request, encode_connect,
    encode_notification, encode_notification_response, encode_skill_close, encode_skill_request,
};
use skill_register::{Method, Status};
use skill_register::dispatch::{handle_request, DispatchOutcome};
use skill_register::tables::Correlations;

fn bytes(s: &str) -> Vec<u8> {
    s.as_bytes().to_vec()
}

#[test]
fn response_bytes_are_named_maps() {
    // {"data": [{"CanYouAnswer": {"code": 2, "request_id": 7}}]}
    let m = MsgNotificationResponse {
        data: vec![ResponseItem::CanYouAnswer { code: 2, request_id: 7 }],
    };
    let enc = encode_notification_response(&m);
    let mut expected = vec![0x81u8, 0xa4];
    expected.extend_from_slice(b"data");
    expected.push(0x91);
    expected.push(0x81);
    expected.push(0xac);
    expected.extend_from_slice(b"CanYouAnswer");
    expected.push(0x82);
    expected.push(0xa4);
    expected.extend_from_slice(b"code");
    expected.push(0x02);
    expected.push(0xaa);
    expected.extend_from_slice(b"request_id");
    expected.push(0x07);
    assert_eq!(enc, expected);
}

#[test]
fn notification_round_trips() {
    let m = MsgNotification {
        skill_id: bytes("weather"),
        data: vec![
            NotificationItem::CanYouAnswer { request_id: 300, confidence: 0.75f32.to_bits() },
            NotificationItem::Requested {
                request_id: 1,
                capabilities: vec![bytes("one"), bytes("two")],
            },
            NotificationItem::StandAlone { client_id: bytes("c9"), capabilities: vec![] },
        ],
    };
    let enc = encode_notification(&m);
    let d = decode_notification(&enc).expect("the encoding must decode");
    assert_eq!(d.skill_id, m.skill_id);
    assert_eq!(d.data.len(), 3);
    match &d.data[0] {
        NotificationItem::CanYouAnswer { request_id, confidence } => {
            assert_eq!(*request_id, 300);
            assert_eq!(f32::from_bits(*confidence), 0.75f32);
        }
        _ => panic!("wrong first entry"),
    }
    match &d.data[1] {
        NotificationItem::Requested { request_id, capabilities } => {
            assert_eq!(*request_id, 1);
            assert_eq!(capabilities, &vec![bytes("one"), bytes("two")]);
        }
        _ => panic!("wrong second entry"),
    }
    match &d.data[2] {
        NotificationItem::StandAlone { client_id, capabilities } => {
            assert_eq!(client_id, &bytes("c9"));
            assert!(capabilities.is_empty());
        }
        _ => panic!("wrong third entry"),
    }
    // Re-encoding the decoded value gives the same bytes again.
    assert_eq!(encode_notification(&d), enc);
}

#[test]
fn connect_close_and_skill_request_round_trip() {
    let c = encode_connect(&MsgConnect { id: bytes("skill-a") });
    assert_eq!(decode_connect(&c).unwrap().id, bytes("skill-a"));

    let s = encode_skill_close(&MsgSkillClose { id: bytes("skill-a") });
    assert_eq!(decode_skill_close(&s).unwrap().id, bytes("skill-a"));

    let rq = MsgSkillRequest { client: bytes("cl"), request_id: 70000, request: bytes("rq") };
    let e = encode_skill_request(&rq);
    let d = decode_skill_request(&e).unwrap();
    assert_eq!(d.client, bytes("cl"));
    assert_eq!(d.request_id, 70000);
    assert_eq!(d.request, bytes("rq"));
}

#[test]
fn connect_bytes_are_a_named_map() {
    // {"id": "ab"}
    let enc = encode_connect(&MsgConnect { id: bytes("ab") });
    assert_eq!(enc, vec![0x81, 0xa2, b'i', b'd', 0xa2, b'a', b'b']);
}

#[test]
fn wrong_shape_yields_request_entity_incomplete() {
    // An array where the message map should be: a shape error.
    let mut t: Correlations<u32, u64> = Correlations::new();
    let r = handle_request(
        &mut t,
        Method::Post,
        &bytes("vap/skillRegistry/notification"),
        vec![0x91, 0xc0],
    );
    assert!(matches!(
        r,
        DispatchOutcome::Reply { status: Status::RequestEntityIncomplete, .. }
    ));
}

#[test]
fn truncated_payload_yields_bad_request() {
    let mut t: Correlations<u32, u64> = Correlations::new();
    let r = handle_request(
        &mut t,
        Method::Post,
        &bytes("vap/skillRegistry/notification"),
        vec![0x82],
    );
    assert!(matches!(r, DispatchOutcome::Reply { status: Status::BadRequest, .. }));
    let r = handle_request(&mut t, Method::Post, &bytes("vap/skillRegistry/connect"), Vec::new());
    assert!(matches!(r, DispatchOutcome::Reply { status: Status::BadRequest, .. }));
}

#[test]
fn decode_rejects_wrong_field_names() {
    // {"id": ...} expected; {"xx": "a"} given.
    let payload = vec![0x81, 0xa2, b'x', b'x', 0xa1, b'a'];
    match decode_connect(&payload) {
        Err(e) => assert_eq!(e, DecodeError::Malformed),
        Ok(_) => panic!("a wrong field name must not decode"),
    }
}

#[test]
fn status_codes_match_the_transport_library() {
    assert_eq!(Status::Valid.wire_code(), coap_lite::ResponseType::Valid as u16);
    assert_eq!(Status::Content.wire_code(), coap_lite::ResponseType::Content as u16);
    assert_eq!(Status::BadRequest.wire_code(), coap_lite::ResponseType::BadRequest as u16);
    assert_eq!(
        Status::MethodNotAllowed.wire_code(),
        coap_lite::ResponseType::MethodNotAllowed as u16
    );
    assert_eq!(
        Status::RequestEntityIncomplete.wire_code(),
        coap_lite::ResponseType::RequestEntityIncomplete as u16
    );
}

#[test]
fn primitive_encodings_match_the_reference_encoder() {
    // The reference encoder emits the same compact forms the codec states.
    let f = rmp_serde::to_vec(&0.75f32).unwrap();
    let m = MsgNotification {
        skill_id: Vec::new(),
        data: vec![NotificationItem::CanYouAnswer { request_id: 0, confidence: 0.75f32.to_bits() }],
    };
    let enc = encode_notification(&m);
    let pos = enc
        .windows(f.len())
        .position(|w| w == &f[..])
        .expect("the float bytes must appear in the encoding");
    assert!(pos > 0);

    let n = rmp_serde::to_vec(&300u64).unwrap();
    assert_eq!(n, vec![0xcd, 0x01, 0x2c]);
    let s = rmp_serde::to_vec("data").unwrap();
    assert_eq!(s, vec![0xa4, b'd', b'a', b't', b'a']);
}
