//! The inbound dispatcher: classifies a request by method and path, decodes
//! the payload, and either answers at once, hands a decoded event to the
//! upper layer, or resolves a notification against the correlation tables.
//! Unknown method and path combinations are answered `MethodNotAllowed` and
//! reach no table and no event queue.

use vstd::prelude::*;
use vstd::string::StringSliceAdditionalSpecFns;
use vstd::string::is_ascii;
use crate::Method;
use crate::Status;
use crate::messages::DecodeError;
use crate::messages::MsgQuery;
use crate::messages::SkillRegisterMessage;
use crate::tables::Correlations;
use crate::resolve::Resolution;
use crate::resolve::s_resolve;
use crate::wire::ItemModel;
use crate::wire::items_model;
use crate::wire::s_dec_id_msg;
use crate::wire::s_dec_notification;
use crate::wire::decode_connect;
use crate::wire::decode_skill_close;
use crate::wire::decode_notification;
use crate::nlu_wire::s_dec_register_intents;
use crate::nlu_wire::nlus_model;
use crate::nlu_wire::decode_register_intents;
use crate::wire::key_bytes;
use crate::wire::bytes_eq;
use crate::resolve::resolve_notification;

verus! {

/// What one inbound exchange comes to: an immediate reply, an event for the
/// upper layer (whose answer becomes the reply), or a resolved notification
/// (whose deliveries and waits the caller drives before replying).
pub enum DispatchOutcome<P, R> {
    Reply { status: Status, payload: Vec<u8> },
    Event { event: SkillRegisterMessage },
    Notification { resolution: Resolution<P, R> },
}

pub open spec fn spec_starts_with(p: Seq<u8>, pre: Seq<u8>) -> bool {
    pre.len() <= p.len() && p.subrange(0, pre.len() as int) == pre
}

/// Whether `p` begins with `pre`.
pub fn bytes_starts_with(p: &Vec<u8>, pre: &Vec<u8>) -> (r: bool)
    ensures
        r == spec_starts_with(p@, pre@),
{
    if pre.len() > p.len() {
        return false;
    }
    let mut i: usize = 0;
    while i < pre.len()
        invariant
            i <= pre@.len(),
            pre@.len() <= p@.len(),
            forall|j: int| 0 <= j < i ==> p@[j] == pre@[j],
        decreases pre@.len() - i,
    {
        if p[i] != pre[i] {
            return false;
        }
        i += 1;
    }
    proof {
        assert(p@.subrange(0, pre@.len() as int) =~= pre@);
    }
    true
}

pub open spec fn path_well_known() -> Seq<u8> {
    ".well-known/core".spec_bytes()
}

pub open spec fn path_query() -> Seq<u8> {
    "vap/skillRegistry/query".spec_bytes()
}

pub open spec fn path_connect() -> Seq<u8> {
    "vap/skillRegistry/connect".spec_bytes()
}

pub open spec fn path_register_intents() -> Seq<u8> {
    "vap/skillRegistry/registerIntents".spec_bytes()
}

pub open spec fn path_notification() -> Seq<u8> {
    "vap/skillRegistry/notification".spec_bytes()
}

pub open spec fn prefix_skills() -> Seq<u8> {
    "vap/skillRegistry/skills/".spec_bytes()
}

pub open spec fn prefix_request() -> Seq<u8> {
    "vap/request/".spec_bytes()
}

/// The fixed discovery string.
pub open spec fn discovery_body() -> Seq<u8> {
    "</vap>;rt=\"vap-skill-registry\"".spec_bytes()
}

/// The method and path combinations the broker serves.
pub open spec fn spec_recognized(m: Method, p: Seq<u8>) -> bool {
    match m {
        Method::Get => spec_starts_with(p, prefix_skills()) || p == path_query() || p
            == path_well_known() || spec_starts_with(p, prefix_request()),
        Method::Post => p == path_connect() || p == path_register_intents() || p
            == path_notification(),
        Method::Put => true,
        Method::Delete => spec_starts_with(p, prefix_skills()),
        Method::Other => false,
    }
}

/// The reply to a payload that would not decode.
pub open spec fn decode_error_status(e: DecodeError) -> Status {
    match e {
        DecodeError::TypeMismatch => Status::RequestEntityIncomplete,
        DecodeError::Malformed => Status::BadRequest,
    }
}

/// The notification outcome is the resolution of some entry list whose
/// mathematical shape is the decoded one, against the tables as they stood.
pub open spec fn resolution_of<P, R>(
    res: Resolution<P, R>,
    probes0: Map<u64, P>,
    invocations0: Map<u64, R>,
    probes1: Map<u64, P>,
    invocations1: Map<u64, R>,
    skill_id: Seq<u8>,
    model_items: Seq<ItemModel>,
) -> bool {
    exists|data: Seq<crate::messages::NotificationItem>|
        {
            let m = s_resolve(probes0, invocations0, data);
            &&& #[trigger] items_model(data) == model_items
            &&& res.skill_id@ == skill_id
            &&& res.deliveries@ == m.deliveries
            &&& res.parts@ == m.parts
            &&& res.awaits@ == m.awaits
            &&& res.standalone@ == m.standalone
            &&& probes1 == m.probes
            &&& invocations1 == m.invocations
        }
}

/// Classifies and serves one inbound request.
#[verifier::spinoff_prover]
#[verifier::rlimit(80)]
pub fn handle_request<P, R>(
    tables: &mut Correlations<P, R>,
    method: Method,
    path: &Vec<u8>,
    payload: Vec<u8>,
) -> (r: DispatchOutcome<P, R>)
    requires
        old(tables).wf(),
    ensures
        final(tables).wf(),
        // Unknown routes: method-not-allowed, no event, no table change.
        !spec_recognized(method, path@) ==> (r matches DispatchOutcome::Reply { status, payload }
            && status == Status::MethodNotAllowed && payload@.len() == 0) && *final(tables)
            == *old(tables),
        // Discovery.
        method == Method::Get && path@ == path_well_known() ==> (r
            matches DispatchOutcome::Reply { status, payload } && status == Status::Content
            && payload@ == discovery_body()) && *final(tables) == *old(tables),
        // Observe bookkeeping on a skill resource.
        method == Method::Get && spec_starts_with(path@, prefix_skills()) ==> (r
            matches DispatchOutcome::Reply { status, payload } && status == Status::Content
            && payload@.len() == 0) && *final(tables) == *old(tables),
        // Observe bookkeeping on an exchange resource.
        method == Method::Get && spec_starts_with(path@, prefix_request()) && !spec_starts_with(
            path@,
            prefix_skills(),
        ) && path@ != path_query() && path@ != path_well_known() ==> (r
            matches DispatchOutcome::Reply { status, payload } && status == Status::Valid
            && payload@.len() == 0) && *final(tables) == *old(tables),
        // Queries pass through to the upper layer uninterpreted.
        method == Method::Get && path@ == path_query() && !spec_starts_with(
            path@,
            prefix_skills(),
        ) ==> (r matches DispatchOutcome::Event { event } && event matches
            SkillRegisterMessage::Query(q) && q.payload@ == payload@) && *final(tables) == *old(
            tables,
        ),
        // Observe updates.
        method == Method::Put ==> (r matches DispatchOutcome::Reply { status, payload } && status
            == Status::Valid && payload@.len() == 0) && *final(tables) == *old(tables),
        // Handshake.
        method == Method::Post && path@ == path_connect() ==> (match s_dec_id_msg(payload@, 0) {
            Ok(t) => r matches DispatchOutcome::Event { event } && event matches
                SkillRegisterMessage::Connect(m) && m.id@ == t.0,
            Err(e) => r matches DispatchOutcome::Reply { status, payload }
                && status == decode_error_status(e) && payload@.len() == 0,
        }) && *final(tables) == *old(tables),
        // Declarations are decoded and handed to the upper layer.
        method == Method::Post && path@ == path_register_intents() ==> (match
            s_dec_register_intents(payload@, 0) {
            Ok(t) => r matches DispatchOutcome::Event { event } && event matches
                SkillRegisterMessage::RegisterIntents(m) && m.skill_id@ == t.0.0 && nlus_model(
                    m.nlu_data@,
                ) == t.0.1,
            Err(e) => r matches DispatchOutcome::Reply { status, payload }
                && status == decode_error_status(e) && payload@.len() == 0,
        }) && *final(tables) == *old(tables),
        // Notifications are resolved against the tables.
        method == Method::Post && path@ == path_notification() ==> (match s_dec_notification(
            payload@,
            0,
        ) {
            Ok(t) => r matches DispatchOutcome::Notification { resolution } && resolution_of(
                resolution,
                old(tables).probes(),
                old(tables).invocations(),
                final(tables).probes(),
                final(tables).invocations(),
                t.0.0,
                t.0.1,
            ),
            Err(e) => r matches DispatchOutcome::Reply { status, payload }
                && status == decode_error_status(e) && payload@.len() == 0 && *final(tables) == *old(
                tables,
            ),
        }),
        // Sign-off.
        method == Method::Delete && spec_starts_with(path@, prefix_skills()) ==> (match
            s_dec_id_msg(payload@, 0) {
            Ok(t) => r matches DispatchOutcome::Event { event } && event matches
                SkillRegisterMessage::Close(m) && m.id@ == t.0,
            Err(e) => r matches DispatchOutcome::Reply { status, payload }
                && status == decode_error_status(e) && payload@.len() == 0,
        }) && *final(tables) == *old(tables),
{
    proof {
        reveal_strlit(".well-known/core");
        reveal_strlit("vap/skillRegistry/query");
        reveal_strlit("vap/skillRegistry/connect");
        reveal_strlit("vap/skillRegistry/registerIntents");
        reveal_strlit("vap/skillRegistry/notification");
        reveal_strlit("vap/skillRegistry/skills/");
        reveal_strlit("vap/request/");
        reveal_strlit("</vap>;rt=\"vap-skill-registry\"");
        assert(is_ascii(".well-known/core"));
        assert(is_ascii("vap/skillRegistry/query"));
        assert(is_ascii("vap/skillRegistry/connect"));
        assert(is_ascii("vap/skillRegistry/registerIntents"));
        assert(is_ascii("vap/skillRegistry/notification"));
        assert(is_ascii("vap/skillRegistry/skills/"));
        assert(is_ascii("vap/request/"));
        assert(is_ascii("</vap>;rt=\"vap-skill-registry\""));
    }
    match method {
        Method::Get => {
            let skills = key_bytes("vap/skillRegistry/skills/");
            if bytes_starts_with(path, &skills) {
                return DispatchOutcome::Reply { status: Status::Content, payload: Vec::new() };
            }
            let query = key_bytes("vap/skillRegistry/query");
            if bytes_eq(path, &query) {
                return DispatchOutcome::Event {
                    event: SkillRegisterMessage::Query(MsgQuery { payload }),
                };
            }
            let well_known = key_bytes(".well-known/core");
            if bytes_eq(path, &well_known) {
                let body = key_bytes("</vap>;rt=\"vap-skill-registry\"");
                return DispatchOutcome::Reply { status: Status::Content, payload: body };
            }
            let requests = key_bytes("vap/request/");
            if bytes_starts_with(path, &requests) {
                return DispatchOutcome::Reply { status: Status::Valid, payload: Vec::new() };
            }
            DispatchOutcome::Reply { status: Status::MethodNotAllowed, payload: Vec::new() }
        },
        Method::Post => {
            let connect = key_bytes("vap/skillRegistry/connect");
            if bytes_eq(path, &connect) {
                return (match decode_connect(&payload) {
                    Ok(m) => DispatchOutcome::Event { event: SkillRegisterMessage::Connect(m) },
                    Err(e) => DispatchOutcome::Reply {
                        status: if e == DecodeError::TypeMismatch {
                            Status::RequestEntityIncomplete
                        } else {
                            Status::BadRequest
                        },
                        payload: Vec::new(),
                    },
                });
            }
            let register = key_bytes("vap/skillRegistry/registerIntents");
            if bytes_eq(path, &register) {
                return (match decode_register_intents(&payload) {
                    Ok(m) => DispatchOutcome::Event {
                        event: SkillRegisterMessage::RegisterIntents(m),
                    },
                    Err(e) => DispatchOutcome::Reply {
                        status: if e == DecodeError::TypeMismatch {
                            Status::RequestEntityIncomplete
                        } else {
                            Status::BadRequest
                        },
                        payload: Vec::new(),
                    },
                });
            }
            let notification = key_bytes("vap/skillRegistry/notification");
            if bytes_eq(path, &notification) {
                return (match decode_notification(&payload) {
                    Ok(m) => {
                        let ghost data = m.data@;
                        let resolution = resolve_notification(tables, m);
                        proof {
                            assert(items_model(data) == items_model(data));
                        }
                        DispatchOutcome::Notification { resolution }
                    },
                    Err(e) => DispatchOutcome::Reply {
                        status: if e == DecodeError::TypeMismatch {
                            Status::RequestEntityIncomplete
                        } else {
                            Status::BadRequest
                        },
                        payload: Vec::new(),
                    },
                });
            }
            DispatchOutcome::Reply { status: Status::MethodNotAllowed, payload: Vec::new() }
        },
        Method::Put => DispatchOutcome::Reply { status: Status::Valid, payload: Vec::new() },
        Method::Delete => {
            let skills = key_bytes("vap/skillRegistry/skills/");
            if bytes_starts_with(path, &skills) {
                return (match decode_skill_close(&payload) {
                    Ok(m) => DispatchOutcome::Event { event: SkillRegisterMessage::Close(m) },
                    Err(e) => DispatchOutcome::Reply {
                        status: if e == DecodeError::TypeMismatch {
                            Status::RequestEntityIncomplete
                        } else {
                            Status::BadRequest
                        },
                        payload: Vec::new(),
                    },
                });
            }
            DispatchOutcome::Reply { status: Status::MethodNotAllowed, payload: Vec::new() }
        },
        Method::Other => DispatchOutcome::Reply {
            status: Status::MethodNotAllowed,
            payload: Vec::new(),
        },
    }
}

}
