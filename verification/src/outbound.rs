//! The outbound side: the monotonic request-id source, and the preparation
//! of answerability probes and skill activations.  Preparing a call
//! allocates a fresh id, registers the caller's reply slot in the matching
//! correlation table, and yields the resource path and encoded body the
//! transport is to send.  The awaited reply itself arrives later as a
//! notification and is paired by id alone.

use vstd::prelude::*;
use vstd::string::StringSliceAdditionalSpecFns;
use vstd::string::is_ascii;
use crate::Status;
use crate::messages::MsgNotification;
use crate::messages::MsgSkillRequest;
use crate::messages::NotificationItem;
use crate::tables::Correlations;
use crate::wire::encode_skill_request;
use crate::wire::s_enc_skill_request;
use crate::wire::key_bytes;
use crate::msgpack::push_bytes;
use crate::dispatch::prefix_skills;

verus! {

/// Monotonic source of request identifiers; wraps at the top.  Entries are
/// short-lived, so reuse after a wrap is tolerable; the tables prune a stale
/// entry when its id is handed out again.
pub struct IdAllocator {
    next: u64,
}

impl IdAllocator {
    pub closed spec fn next_id(self) -> u64 {
        self.next
    }

    pub fn new() -> (r: IdAllocator)
        ensures
            r.next_id() == 0,
    {
        IdAllocator { next: 0 }
    }

    /// Hands out the current id and advances the counter.
    pub fn get_id(&mut self) -> (r: u64)
        ensures
            r == old(self).next_id(),
            final(self).next_id() == (if old(self).next_id() == u64::MAX {
                0u64
            } else {
                (old(self).next_id() + 1) as u64
            }),
    {
        let id = self.next;
        self.next = if self.next == u64::MAX {
            0
        } else {
            self.next + 1
        };
        id
    }
}

/// The resource path of one skill.
pub fn skills_path(skill_id: &Vec<u8>) -> (r: Vec<u8>)
    ensures
        r@ == prefix_skills() + skill_id@,
{
    proof {
        reveal_strlit("vap/skillRegistry/skills/");
        assert(is_ascii("vap/skillRegistry/skills/"));
    }
    let mut r = key_bytes("vap/skillRegistry/skills/");
    push_bytes(&mut r, skill_id);
    r
}

/// Prepares an answerability probe: a fresh id, the probe waiter registered
/// under it, and the path and body of the transport call to make.
pub fn prepare_probe<P, R>(
    tables: &mut Correlations<P, R>,
    ids: &mut IdAllocator,
    skill_id: &Vec<u8>,
    request: &Vec<u8>,
    client: &Vec<u8>,
    slot: P,
) -> (r: (u64, Vec<u8>, Vec<u8>))
    requires
        old(tables).wf(),
        client@.len() < 0x100000000,
        request@.len() < 0x100000000,
    ensures
        final(tables).wf(),
        r.0 == old(ids).next_id(),
        final(tables).probes() == old(tables).probes().insert(r.0, slot),
        final(tables).invocations() == old(tables).invocations().remove(r.0),
        r.1@ == prefix_skills() + skill_id@,
        r.2@ == s_enc_skill_request(client@, r.0, request@),
{
    let request_id = ids.get_id();
    tables.insert_probe(request_id, slot);
    let path = skills_path(skill_id);
    let msg = MsgSkillRequest {
        client: clone_bytes(client),
        request_id,
        request: clone_bytes(request),
    };
    let body = encode_skill_request(&msg);
    (request_id, path, body)
}

/// Prepares a skill activation: stamps a fresh id into the message,
/// registers the invocation waiter under it, and yields the transport call.
pub fn prepare_activate<P, R>(
    tables: &mut Correlations<P, R>,
    ids: &mut IdAllocator,
    skill_id: &Vec<u8>,
    msg: MsgSkillRequest,
    slot: R,
) -> (r: (u64, Vec<u8>, Vec<u8>))
    requires
        old(tables).wf(),
        msg.client@.len() < 0x100000000,
        msg.request@.len() < 0x100000000,
    ensures
        final(tables).wf(),
        r.0 == old(ids).next_id(),
        final(tables).invocations() == old(tables).invocations().insert(r.0, slot),
        final(tables).probes() == old(tables).probes().remove(r.0),
        r.1@ == prefix_skills() + skill_id@,
        r.2@ == s_enc_skill_request(msg.client@, r.0, msg.request@),
{
    let request_id = ids.get_id();
    tables.insert_invocation(request_id, slot);
    let path = skills_path(skill_id);
    let stamped = MsgSkillRequest { client: msg.client, request_id, request: msg.request };
    let body = encode_skill_request(&stamped);
    (request_id, path, body)
}

/// A copy of a byte payload.
pub fn clone_bytes(b: &Vec<u8>) -> (r: Vec<u8>)
    ensures
        r@ == b@,
{
    let mut r: Vec<u8> = Vec::new();
    push_bytes(&mut r, b);
    proof {
        assert(r@ =~= b@);
    }
    r
}

/// A probe's transport reply must be `valid`; anything else is a transport
/// failure and the probe's result is omitted.
pub fn probe_reply_accepted(status: Status) -> (r: bool)
    ensures
        r == (status == Status::Valid),
{
    match status {
        Status::Valid => true,
        _ => false,
    }
}

/// An activation's transport reply must be `content`.
pub fn activate_reply_accepted(status: Status) -> (r: bool)
    ensures
        r == (status == Status::Content),
{
    match status {
        Status::Content => true,
        _ => false,
    }
}

/// The value a probe call returns once its confidence arrives: the probed
/// skill's notification, carrying exactly the delivered confidence bits.
pub fn make_probe_result(skill_id: Vec<u8>, request_id: u64, confidence: u32) -> (r:
    MsgNotification)
    ensures
        r.skill_id == skill_id,
        r.data@.len() == 1,
        r.data@[0] == (NotificationItem::CanYouAnswer { request_id, confidence }),
{
    let mut data: Vec<NotificationItem> = Vec::new();
    data.push(NotificationItem::CanYouAnswer { request_id, confidence });
    MsgNotification { skill_id, data }
}

}
