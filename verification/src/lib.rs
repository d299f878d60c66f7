//! Registry broker for a voice-assistant skill hub.
//!
//! Skills connect over a constrained request/response transport, declare the
//! utterances they understand, and exchange requests and notifications with
//! the hub.  This crate holds the broker's verified core: the wire-message
//! codec, the two correlation tables pairing asynchronous skill replies with
//! their originating callers, the inbound dispatcher, the notification
//! resolver, the outbound call preparation and the bounded event queue.  The
//! transport itself and all task plumbing live outside the library; they hand
//! the core plain values (bytes, ids, slots) and take plain values back.

use vstd::prelude::*;

pub mod tables;
pub mod messages;
pub mod msgpack;
pub mod wire;
pub mod nlu_wire;
pub mod resolve;
pub mod dispatch;
pub mod queue;
pub mod outbound;
pub mod nlu;

verus! {

/// The four transport methods the broker distinguishes; anything else is
/// answered with `MethodNotAllowed`.
#[derive(PartialEq, Eq, Structural, Clone, Copy, Debug)]
pub enum Method {
    Get,
    Post,
    Put,
    Delete,
    Other,
}

/// Transport status codes the broker emits or checks.
#[derive(PartialEq, Eq, Structural, Clone, Copy, Debug)]
pub enum Status {
    Content,
    Valid,
    BadRequest,
    RequestEntityIncomplete,
    MethodNotAllowed,
}

/// The ordinal the transport library assigns to each response type; the
/// notification sub-response `code` field carries these numbers on the wire.
pub open spec fn spec_wire_code(s: Status) -> u16 {
    match s {
        Status::Valid => 2,
        Status::Content => 4,
        Status::BadRequest => 6,
        Status::MethodNotAllowed => 11,
        Status::RequestEntityIncomplete => 17,
    }
}

impl Status {
    /// Numeric code recorded in notification sub-responses.
    pub fn wire_code(&self) -> (r: u16)
        ensures
            r == spec_wire_code(*self),
    {
        match self {
            Status::Valid => 2,
            Status::Content => 4,
            Status::BadRequest => 6,
            Status::MethodNotAllowed => 11,
            Status::RequestEntityIncomplete => 17,
        }
    }
}

/// The broker's error: the peer end of a one-shot reply slot was dropped.
#[derive(PartialEq, Eq, Structural, Clone, Copy, Debug)]
pub enum Error {
    ClosedChannel,
}

/// A reply from the upper layer, lifted onto the transport response.
pub struct Response {
    pub status: Status,
    pub payload: Vec<u8>,
}

/// Terminal acknowledgement an outbound caller sends back for a `Requested`
/// notification: the status code the skill is told.
#[derive(PartialEq, Eq, Structural, Clone, Copy, Debug)]
pub struct RequestResponse {
    pub code: u16,
}

/// Acknowledgement for a standalone notification entry, addressed to one
/// client.
#[derive(Clone, Debug)]
pub struct NotificationResponse {
    pub client_id: Vec<u8>,
    pub code: u16,
}

}
