use skill_register::dispatch::{handle_request, DispatchOutcome};
use skill_register::messages::{
    MsgNotification, MsgNotificationResponse, NotificationItem, ResponseItem, SkillRegisterMessage,
};
use skill_register::messages::MsgRegisterIntents;
use skill_register::nlu::{
    EntityData, IntentData, LangData, NluData, NluDataIntent, NluDataIntentUtterance, NluDataSlot,
};
use skill_register::nlu_wire::encode_register_intents;
use skill_register::outbound::{
    activate_reply_accepted, make_probe_result, prepare_activate, prepare_probe,
    probe_reply_accepted, IdAllocator,
};
use skill_register::queue::EventQueue;
use skill_register::resolve::{finish_parts, resolve_notification, ResponsePart};
use skill_register::tables::Correlations;
use skill_register::wire::{decode_skill_request, encode_notification, encode_notification_response};
use skill_register::{Method, Status};

fn bytes(s: &str) -> Vec<u8> {
    s.as_bytes().to_vec()
}

#[test]
fn discovery() {
    let mut t: Correlations<u32, u64> = Correlations::new();
    let r = handle_request(&mut t, Method::Get, &bytes(".well-known/core"), Vec::new());
    match r {
        DispatchOutcome::Reply { status, payload } => {
            assert_eq!(status, Status::Content);
            assert_eq!(payload, bytes("</vap>;rt=\"vap-skill-registry\""));
        }
        _ => panic!("expected a reply"),
    }
}

#[test]
fn unknown_route_is_method_not_allowed() {
    let mut t: Correlations<u32, u64> = Correlations::new();
    let r = handle_request(
        &mut t,
        Method::Post,
        &bytes("vap/skillRegistry/unknown"),
        bytes("junk"),
    );
    match r {
        DispatchOutcome::Reply { status, payload } => {
            assert_eq!(status, Status::MethodNotAllowed);
            assert!(payload.is_empty());
        }
        _ => panic!("an unknown route must not enqueue an event"),
    }
}

#[test]
fn unknown_method_is_method_not_allowed() {
    let mut t: Correlations<u32, u64> = Correlations::new();
    let r = handle_request(&mut t, Method::Other, &bytes("vap/skillRegistry/query"), Vec::new());
    assert!(matches!(
        r,
        DispatchOutcome::Reply { status: Status::MethodNotAllowed, .. }
    ));
}

#[test]
fn probe_round_trip() {
    let mut t: Correlations<u32, u64> = Correlations::new();
    let mut ids = IdAllocator::new();
    let (rid, path, body) = prepare_probe(
        &mut t,
        &mut ids,
        &bytes("weather"),
        &bytes("req-env"),
        &bytes("client-env"),
        99u32,
    );
    assert_eq!(rid, 0);
    assert_eq!(path, bytes("vap/skillRegistry/skills/weather"));
    let m = decode_skill_request(&body).expect("the probe body must decode");
    assert_eq!(m.request_id, rid);
    assert_eq!(m.client, bytes("client-env"));
    assert_eq!(m.request, bytes("req-env"));
    assert!(probe_reply_accepted(Status::Valid));
    assert!(!probe_reply_accepted(Status::Content));

    let conf = 0.75f32.to_bits();
    let notif = MsgNotification {
        skill_id: bytes("weather"),
        data: vec![NotificationItem::CanYouAnswer { request_id: rid, confidence: conf }],
    };
    let payload = encode_notification(&notif);
    let r = handle_request(&mut t, Method::Post, &bytes("vap/skillRegistry/notification"), payload);
    match r {
        DispatchOutcome::Notification { resolution } => {
            // The waiter observes exactly the confidence of the notification.
            assert_eq!(resolution.deliveries.len(), 1);
            assert_eq!(resolution.deliveries[0].0, 99u32);
            assert_eq!(f32::from_bits(resolution.deliveries[0].1), 0.75f32);
            assert!(resolution.standalone.is_empty());
            assert!(resolution.awaits.is_empty());
            let items = finish_parts(&resolution.parts, &Vec::new());
            assert_eq!(
                items,
                vec![ResponseItem::CanYouAnswer { code: 2, request_id: rid }]
            );
        }
        _ => panic!("expected a notification resolution"),
    }
    // The probe's returned value carries the delivered confidence.
    let result = make_probe_result(bytes("weather"), rid, conf);
    assert_eq!(result.skill_id, bytes("weather"));
    match &result.data[0] {
        NotificationItem::CanYouAnswer { request_id, confidence } => {
            assert_eq!(*request_id, rid);
            assert_eq!(f32::from_bits(*confidence), 0.75f32);
        }
        _ => panic!("expected a probe reply entry"),
    }
}

#[test]
fn activate_round_trip() {
    let mut t: Correlations<u32, u64> = Correlations::new();
    let mut ids = IdAllocator::new();
    let msg = skill_register::messages::MsgSkillRequest {
        client: bytes("c"),
        request_id: 123456,
        request: bytes("r"),
    };
    let (rid, path, body) = prepare_activate(&mut t, &mut ids, &bytes("weather"), msg, 77u64);
    assert_eq!(rid, 0);
    assert_eq!(path, bytes("vap/skillRegistry/skills/weather"));
    let m = decode_skill_request(&body).expect("the activation body must decode");
    // The fresh id is stamped over whatever the message carried.
    assert_eq!(m.request_id, rid);
    assert!(activate_reply_accepted(Status::Content));
    assert!(!activate_reply_accepted(Status::Valid));

    let notif = MsgNotification {
        skill_id: bytes("weather"),
        data: vec![NotificationItem::Requested {
            request_id: rid,
            capabilities: vec![bytes("cap_x")],
        }],
    };
    let payload = encode_notification(&notif);
    let r = handle_request(&mut t, Method::Post, &bytes("vap/skillRegistry/notification"), payload);
    match r {
        DispatchOutcome::Notification { resolution } => {
            // The caller observes exactly the capabilities of the notification.
            assert_eq!(resolution.awaits.len(), 1);
            assert_eq!(resolution.awaits[0].0, rid);
            assert_eq!(resolution.awaits[0].1, 77u64);
            assert_eq!(resolution.awaits[0].2, vec![bytes("cap_x")]);
            assert!(resolution.deliveries.is_empty());
            assert!(resolution.standalone.is_empty());
            assert!(matches!(resolution.parts[0], ResponsePart::Await { .. }));
            // The upper caller acknowledges with code 200.
            let items = finish_parts(&resolution.parts, &vec![200u16]);
            assert_eq!(items, vec![ResponseItem::Requested { code: 200, request_id: rid }]);
            let reply = encode_notification_response(&MsgNotificationResponse { data: items });
            assert!(!reply.is_empty());
        }
        _ => panic!("expected a notification resolution"),
    }
}

#[test]
fn orphan_notification_gets_bad_request_per_entry() {
    let mut t: Correlations<u32, u64> = Correlations::new();
    let notif = MsgNotification {
        skill_id: bytes("x"),
        data: vec![
            NotificationItem::Requested { request_id: 999, capabilities: vec![] },
            NotificationItem::CanYouAnswer { request_id: 998, confidence: 0.1f32.to_bits() },
        ],
    };
    let payload = encode_notification(&notif);
    let r = handle_request(&mut t, Method::Post, &bytes("vap/skillRegistry/notification"), payload);
    match r {
        DispatchOutcome::Notification { resolution } => {
            assert!(resolution.deliveries.is_empty());
            assert!(resolution.awaits.is_empty());
            assert!(resolution.standalone.is_empty());
            // One sub-response per entry, in input order, code bad-request (6).
            let items = finish_parts(&resolution.parts, &Vec::new());
            assert_eq!(
                items,
                vec![
                    ResponseItem::Requested { code: 6, request_id: 999 },
                    ResponseItem::CanYouAnswer { code: 6, request_id: 998 },
                ]
            );
        }
        _ => panic!("expected a notification resolution"),
    }
}

#[test]
fn mixed_standalone_batch() {
    let mut t: Correlations<u32, u64> = Correlations::new();
    let mut ids = IdAllocator::new();
    let (rid, _path, _body) =
        prepare_probe(&mut t, &mut ids, &bytes("x"), &bytes("q"), &bytes("c"), 5u32);
    let notif = MsgNotification {
        skill_id: bytes("x"),
        data: vec![
            NotificationItem::StandAlone {
                client_id: bytes("c1"),
                capabilities: vec![bytes("cap_y")],
            },
            NotificationItem::CanYouAnswer { request_id: rid, confidence: 0.5f32.to_bits() },
        ],
    };
    let payload = encode_notification(&notif);
    let r = handle_request(&mut t, Method::Post, &bytes("vap/skillRegistry/notification"), payload);
    match r {
        DispatchOutcome::Notification { resolution } => {
            assert_eq!(resolution.deliveries.len(), 1);
            assert_eq!(resolution.deliveries[0].0, 5u32);
            assert_eq!(f32::from_bits(resolution.deliveries[0].1), 0.5f32);
            assert_eq!(resolution.skill_id, bytes("x"));
            assert_eq!(resolution.standalone.len(), 1);
            assert_eq!(resolution.standalone[0].client_id, bytes("c1"));
            assert_eq!(resolution.standalone[0].capabilities, vec![bytes("cap_y")]);
            assert_eq!(resolution.parts.len(), 1);
        }
        _ => panic!("expected a notification resolution"),
    }
}

#[test]
fn request_id_lives_in_one_table_and_is_taken_once() {
    let mut t: Correlations<u32, u64> = Correlations::new();
    t.insert_probe(5, 10u32);
    assert!(t.take_invocation(5).is_none());
    assert_eq!(t.take_probe(5), Some(10u32));
    assert!(t.take_probe(5).is_none());
    t.insert_invocation(5, 20u64);
    assert!(t.take_probe(5).is_none());
    assert_eq!(t.take_invocation(5), Some(20u64));
    assert!(t.take_invocation(5).is_none());
}

#[test]
fn late_reply_for_a_cancelled_probe_is_discarded() {
    // The outbound future was dropped: its table entry was taken away, and
    // the reply that later arrives resolves to bad-request with no delivery.
    let mut t: Correlations<u32, u64> = Correlations::new();
    t.insert_probe(3, 1u32);
    let _ = t.take_probe(3);
    let notif = MsgNotification {
        skill_id: bytes("x"),
        data: vec![NotificationItem::CanYouAnswer { request_id: 3, confidence: 0.9f32.to_bits() }],
    };
    let res = resolve_notification(&mut t, notif);
    assert!(res.deliveries.is_empty());
    let items = finish_parts(&res.parts, &Vec::new());
    assert_eq!(items, vec![ResponseItem::CanYouAnswer { code: 6, request_id: 3 }]);
}

#[test]
fn events_pass_through_in_order_and_bounded() {
    let mut q: EventQueue<u32> = EventQueue::new(2);
    assert!(q.push(1).is_ok());
    assert!(q.push(2).is_ok());
    assert_eq!(q.push(3), Err(3));
    assert_eq!(q.pop(), Some(1));
    assert_eq!(q.pop(), Some(2));
    assert_eq!(q.pop(), None);
}

#[test]
fn query_and_register_intents_pass_through() {
    let mut t: Correlations<u32, u64> = Correlations::new();
    let r = handle_request(&mut t, Method::Get, &bytes("vap/skillRegistry/query"), bytes("qq"));
    match r {
        DispatchOutcome::Event { event: SkillRegisterMessage::Query(m) } => {
            assert_eq!(m.payload, bytes("qq"));
        }
        _ => panic!("expected a query event"),
    }
}

#[test]
fn register_intents_is_decoded_and_forwarded() {
    let mut t: Correlations<u32, u64> = Correlations::new();
    let msg = MsgRegisterIntents {
        skill_id: bytes("weather"),
        nlu_data: vec![NluData {
            language: bytes("en-US"),
            intents: vec![NluDataIntent {
                name: bytes("greet"),
                utterances: vec![NluDataIntentUtterance { text: bytes("hello there") }],
                slots: vec![NluDataSlot { name: bytes("who"), entity: bytes("person") }],
            }],
            entities: vec![skill_register::nlu::NluDataEntity {
                name: bytes("person"),
                strict: false,
                data: vec![bytes("alice")],
            }],
        }],
    };
    let payload = encode_register_intents(&msg);
    let r = handle_request(
        &mut t,
        Method::Post,
        &bytes("vap/skillRegistry/registerIntents"),
        payload,
    );
    match r {
        DispatchOutcome::Event { event: SkillRegisterMessage::RegisterIntents(m) } => {
            assert_eq!(m.skill_id, bytes("weather"));
            assert_eq!(m.nlu_data.len(), 1);
            assert_eq!(m.nlu_data[0].language, bytes("en-US"));
            assert_eq!(m.nlu_data[0].intents.len(), 1);
            assert_eq!(m.nlu_data[0].intents[0].name, bytes("greet"));
            assert_eq!(m.nlu_data[0].intents[0].utterances[0].text, bytes("hello there"));
            assert_eq!(m.nlu_data[0].intents[0].slots[0].name, bytes("who"));
            assert_eq!(m.nlu_data[0].intents[0].slots[0].entity, bytes("person"));
            assert_eq!(m.nlu_data[0].entities[0].name, bytes("person"));
            assert!(!m.nlu_data[0].entities[0].strict);
            assert_eq!(m.nlu_data[0].entities[0].data, vec![bytes("alice")]);
        }
        _ => panic!("expected a register-intents event"),
    }
}

#[test]
fn register_intents_that_does_not_decode_is_rejected() {
    let mut t: Correlations<u32, u64> = Correlations::new();
    // An empty body: no event, bad-request.
    let r = handle_request(
        &mut t,
        Method::Post,
        &bytes("vap/skillRegistry/registerIntents"),
        Vec::new(),
    );
    assert!(matches!(r, DispatchOutcome::Reply { status: Status::BadRequest, .. }));
    // An array where the message map should be: a shape error.
    let r = handle_request(
        &mut t,
        Method::Post,
        &bytes("vap/skillRegistry/registerIntents"),
        vec![0x91, 0xc0],
    );
    assert!(matches!(
        r,
        DispatchOutcome::Reply { status: Status::RequestEntityIncomplete, .. }
    ));
}

#[test]
fn id_allocator_is_monotonic() {
    let mut ids = IdAllocator::new();
    assert_eq!(ids.get_id(), 0);
    assert_eq!(ids.get_id(), 1);
    assert_eq!(ids.get_id(), 2);
}

#[test]
fn lang_data_conversion_takes_only_main() {
    let lang = LangData {
        scopes: vec![
            (
                bytes("extra"),
                vec![(bytes("ignored"), IntentData { utterances: vec![], slots: vec![] })],
            ),
            (
                bytes("main"),
                vec![(
                    bytes("greet"),
                    IntentData {
                        utterances: vec![bytes("hello there")],
                        slots: vec![(bytes("who"), bytes("person"))],
                    },
                )],
            ),
        ],
        entities: vec![(bytes("person"), EntityData { data: vec![bytes("alice")] })],
    };
    let d = lang.into_nlu_data(bytes("en")).expect("a main scope exists");
    assert_eq!(d.language, bytes("en"));
    assert_eq!(d.intents.len(), 1);
    assert_eq!(d.intents[0].name, bytes("greet"));
    assert_eq!(d.intents[0].utterances[0].text, bytes("hello there"));
    assert_eq!(d.intents[0].slots[0].name, bytes("who"));
    assert_eq!(d.intents[0].slots[0].entity, bytes("person"));
    assert_eq!(d.entities.len(), 1);
    assert_eq!(d.entities[0].name, bytes("person"));
    assert!(!d.entities[0].strict);

    let no_main = LangData { scopes: vec![(bytes("other"), vec![])], entities: vec![] };
    assert!(no_main.into_nlu_data(bytes("en")).is_none());
}
