//! The wire messages and upper-layer events, modelled with plain values.
//!
//! Identity strings travel as their UTF-8 bytes.  A capability, the client
//! envelope and the request envelope are opaque payloads the broker passes
//! through without interpreting; each is carried as the raw bytes of one
//! binary blob.  A confidence value is carried as the bit pattern of the
//! 32-bit float on the wire, so forwarding preserves it exactly.

use vstd::prelude::*;

verus! {

/// One entry of a batched notification.
#[derive(Clone, Debug)]
pub enum NotificationItem {
    /// Reply to an answerability probe: `confidence` holds the float's bits.
    CanYouAnswer { request_id: u64, confidence: u32 },
    /// Reply to a skill invocation: the capabilities the skill wants run.
    Requested { request_id: u64, capabilities: Vec<Vec<u8>> },
    /// Output the skill volunteers for a client outside any exchange.
    StandAlone { client_id: Vec<u8>, capabilities: Vec<Vec<u8>> },
}

/// The batched notification a skill posts to the hub.
#[derive(Clone, Debug)]
pub struct MsgNotification {
    pub skill_id: Vec<u8>,
    pub data: Vec<NotificationItem>,
}

/// One entry of the hub's reply to a notification.
#[derive(PartialEq, Eq, Structural, Clone, Copy, Debug)]
pub enum ResponseItem {
    CanYouAnswer { code: u16, request_id: u64 },
    Requested { code: u16, request_id: u64 },
}

/// The hub's reply to a notification without standalone entries.
#[derive(Clone, Debug)]
pub struct MsgNotificationResponse {
    pub data: Vec<ResponseItem>,
}

/// The message the hub sends a skill to probe or activate it.
#[derive(Clone, Debug)]
pub struct MsgSkillRequest {
    pub client: Vec<u8>,
    pub request_id: u64,
    pub request: Vec<u8>,
}

/// A skill's handshake: it announces its identity.
#[derive(Clone, Debug)]
pub struct MsgConnect {
    pub id: Vec<u8>,
}

/// A skill signs off.
#[derive(Clone, Debug)]
pub struct MsgSkillClose {
    pub id: Vec<u8>,
}

/// An upper-layer query; its payload is upper-layer-defined and passes
/// through the broker uninterpreted.
#[derive(Clone, Debug)]
pub struct MsgQuery {
    pub payload: Vec<u8>,
}

/// The declaration bundles a skill registers, one per language.
pub struct MsgRegisterIntents {
    pub skill_id: Vec<u8>,
    pub nlu_data: Vec<crate::nlu::NluData>,
}

/// One standalone entry forwarded to the upper layer.
#[derive(Clone, Debug)]
pub struct NotificationData {
    pub client_id: Vec<u8>,
    pub capabilities: Vec<Vec<u8>>,
}

/// The standalone batch of one notification, forwarded as a single event.
#[derive(Clone, Debug)]
pub struct Notification {
    pub skill_id: Vec<u8>,
    pub data: Vec<NotificationData>,
}

/// A decoded protocol event delivered to the upper layer.
pub enum SkillRegisterMessage {
    Connect(MsgConnect),
    RegisterIntents(MsgRegisterIntents),
    Notification(Notification),
    Query(MsgQuery),
    Close(MsgSkillClose),
}

/// How a payload failed to decode: a field present but of the wrong shape is
/// answered with request-entity-incomplete, anything else with bad-request.
#[derive(PartialEq, Eq, Structural, Clone, Copy, Debug)]
pub enum DecodeError {
    TypeMismatch,
    Malformed,
}

}
