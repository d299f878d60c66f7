//! The wire messages, field for field, over the encoding primitives.  Each
//! message is a map with named fields; a notification entry is a map of one
//! key naming its variant.  Encoders state the exact byte sequence produced;
//! decoders state the exact parse of the bytes; the round-trip lemmas tie the
//! two together.
//!
//! The opaque envelopes — capabilities, the client envelope and the request
//! envelope — are framed as binary blobs (one length-tagged byte run each).
//! The protocol fixes only a length-tagged, map-with-names encoding for the
//! messages themselves and treats these payloads as pass-through, so the
//! blob framing is this codec's concrete choice for them.

use vstd::prelude::*;
use vstd::string::StringSliceAdditionalSpecFns;
use vstd::string::StrSliceExecFns;
use vstd::string::is_ascii;
use crate::messages::DecodeError;
use crate::messages::MsgConnect;
use crate::messages::MsgSkillClose;
use crate::messages::MsgSkillRequest;
use crate::msgpack::s_enc_maphdr;
use crate::msgpack::s_dec_maphdr;
use crate::msgpack::s_enc_str;
use crate::msgpack::s_dec_str;
use crate::msgpack::s_enc_bin;
use crate::msgpack::s_dec_bin;
use crate::msgpack::s_enc_uint;
use crate::msgpack::s_dec_uint;
use crate::msgpack::enc_maphdr;
use crate::msgpack::dec_maphdr;
use crate::msgpack::enc_str;
use crate::msgpack::dec_str;
use crate::msgpack::enc_bin;
use crate::msgpack::dec_bin;
use crate::msgpack::enc_uint;
use crate::msgpack::dec_uint;
use crate::msgpack::lemma_rt_str;
use crate::msgpack::lemma_rt_bin;
use crate::msgpack::lemma_rt_uint;
use crate::msgpack::lemma_rt_maphdr;
use crate::msgpack::lemma_subrange_shift;

verus! {

/// Whether two byte vectors hold the same bytes.
pub fn bytes_eq(a: &Vec<u8>, b: &Vec<u8>) -> (r: bool)
    ensures
        r == (a@ == b@),
{
    if a.len() != b.len() {
        assert(a@.len() != b@.len());
        return false;
    }
    let mut i: usize = 0;
    while i < a.len()
        invariant
            i <= a@.len(),
            a@.len() == b@.len(),
            forall|j: int| 0 <= j < i ==> a@[j] == b@[j],
        decreases a@.len() - i,
    {
        if a[i] != b[i] {
            return false;
        }
        i += 1;
    }
    proof {
        assert(a@ =~= b@);
    }
    true
}

/// An ASCII string's UTF-8 bytes are one byte per character.
pub proof fn lemma_ascii_bytes_len(s: &str)
    requires
        is_ascii(s),
    ensures
        s.spec_bytes().len() == s@.len(),
{
    broadcast use vstd::string::is_ascii_spec_bytes;

}

/// The UTF-8 bytes of an ASCII field name.
pub fn key_bytes(s: &str) -> (r: Vec<u8>)
    requires
        is_ascii(s),
        s@.len() < 0x100000000,
    ensures
        r@ == s.spec_bytes(),
        r@.len() < 0x100000000,
{
    proof {
        lemma_ascii_bytes_len(s);
    }
    s.as_bytes_vec()
}

// ---------------------------------------------------------------------------
// Connect and close: a single identity field
// ---------------------------------------------------------------------------

/// A handshake or sign-off body: a one-entry map holding the skill's id.
pub open spec fn s_enc_id_msg(id: Seq<u8>) -> Seq<u8> {
    s_enc_maphdr(1) + s_enc_str("id".spec_bytes()) + s_enc_str(id)
}

pub open spec fn s_dec_id_msg(b: Seq<u8>, p: int) -> Result<(Seq<u8>, int), DecodeError> {
    match s_dec_maphdr(b, p) {
        Err(e) => Err(e),
        Ok((n, q)) => if n != 1 {
            Err(DecodeError::Malformed)
        } else {
            match s_dec_str(b, q) {
                Err(e) => Err(e),
                Ok((k, q2)) => if k != "id".spec_bytes() {
                    Err(DecodeError::Malformed)
                } else {
                    s_dec_str(b, q2)
                },
            }
        },
    }
}

fn enc_id_msg(out: &mut Vec<u8>, id: &Vec<u8>)
    requires
        id@.len() < 0x100000000,
    ensures
        final(out)@ == old(out)@ + s_enc_id_msg(id@),
{
    proof {
        reveal_strlit("id");
        assert(is_ascii("id"));
    }
    enc_maphdr(out, 1);
    let k = key_bytes("id");
    enc_str(out, &k);
    enc_str(out, id);
    proof {
        assert(out@ =~= old(out)@ + s_enc_id_msg(id@));
    }
}

fn dec_id_msg(b: &Vec<u8>, p: usize) -> (r: Result<(Vec<u8>, usize), DecodeError>)
    ensures
        (match r {
            Ok((id, q)) => s_dec_id_msg(b@, p as int) == Ok::<(Seq<u8>, int), DecodeError>((
                id@,
                q as int,
            )),
            Err(e) => s_dec_id_msg(b@, p as int) == Err::<(Seq<u8>, int), DecodeError>(e),
        }),
{
    proof {
        reveal_strlit("id");
        assert(is_ascii("id"));
    }
    let (n, q) = match dec_maphdr(b, p) {
        Ok(t) => t,
        Err(e) => { return Err(e); },
    };
    if n != 1 {
        return Err(DecodeError::Malformed);
    }
    let (k, q2) = match dec_str(b, q) {
        Ok(t) => t,
        Err(e) => { return Err(e); },
    };
    let expect = key_bytes("id");
    if !bytes_eq(&k, &expect) {
        return Err(DecodeError::Malformed);
    }
    match dec_str(b, q2) {
        Ok(t) => Ok(t),
        Err(e) => Err(e),
    }
}

/// Encodes a skill handshake.
pub fn encode_connect(m: &MsgConnect) -> (r: Vec<u8>)
    requires
        m.id@.len() < 0x100000000,
    ensures
        r@ == s_enc_id_msg(m.id@),
{
    let mut out: Vec<u8> = Vec::new();
    enc_id_msg(&mut out, &m.id);
    proof {
        assert(out@ =~= s_enc_id_msg(m.id@));
    }
    out
}

/// Decodes a skill handshake.
pub fn decode_connect(b: &Vec<u8>) -> (r: Result<MsgConnect, DecodeError>)
    ensures
        (match r {
            Ok(m) => s_dec_id_msg(b@, 0) matches Ok(t) && t.0 == m.id@,
            Err(e) => s_dec_id_msg(b@, 0) == Err::<(Seq<u8>, int), DecodeError>(e),
        }),
{
    match dec_id_msg(b, 0) {
        Ok((id, q)) => {
            proof {
                assert(s_dec_id_msg(b@, 0) == Ok::<(Seq<u8>, int), DecodeError>((id@, q as int)));
            }
            Ok(MsgConnect { id })
        },
        Err(e) => Err(e),
    }
}

/// Encodes a skill sign-off.
pub fn encode_skill_close(m: &MsgSkillClose) -> (r: Vec<u8>)
    requires
        m.id@.len() < 0x100000000,
    ensures
        r@ == s_enc_id_msg(m.id@),
{
    let mut out: Vec<u8> = Vec::new();
    enc_id_msg(&mut out, &m.id);
    proof {
        assert(out@ =~= s_enc_id_msg(m.id@));
    }
    out
}

/// Decodes a skill sign-off.
pub fn decode_skill_close(b: &Vec<u8>) -> (r: Result<MsgSkillClose, DecodeError>)
    ensures
        (match r {
            Ok(m) => s_dec_id_msg(b@, 0) matches Ok(t) && t.0 == m.id@,
            Err(e) => s_dec_id_msg(b@, 0) == Err::<(Seq<u8>, int), DecodeError>(e),
        }),
{
    match dec_id_msg(b, 0) {
        Ok((id, q)) => {
            proof {
                assert(s_dec_id_msg(b@, 0) == Ok::<(Seq<u8>, int), DecodeError>((id@, q as int)));
            }
            Ok(MsgSkillClose { id })
        },
        Err(e) => Err(e),
    }
}

/// Decoding starts over the encoding of an identity message find the id.
pub proof fn lemma_rt_id_msg(b: Seq<u8>, p: int, id: Seq<u8>)
    requires
        0 <= p,
        id.len() < 0x100000000,
        p + s_enc_id_msg(id).len() <= b.len(),
        b.subrange(p, p + s_enc_id_msg(id).len()) == s_enc_id_msg(id),
    ensures
        s_dec_id_msg(b, p) == Ok::<(Seq<u8>, int), DecodeError>((id, p + s_enc_id_msg(id).len())),
{
    reveal_strlit("id");
    assert(is_ascii("id"));
    lemma_ascii_bytes_len("id");
    let e = s_enc_id_msg(id);
    let a = s_enc_maphdr(1);
    let k = s_enc_str("id".spec_bytes());
    let v = s_enc_str(id);
    let al = a.len() as int;
    let kl = k.len() as int;
    let vl = v.len() as int;
    assert(e.len() == al + kl + vl);
    lemma_subrange_shift(b, p, 0, al, e);
    assert(e.subrange(0, al) =~= a);
    lemma_rt_maphdr(b, p, 1);
    lemma_subrange_shift(b, p, al, al + kl, e);
    assert(e.subrange(al, al + kl) =~= k);
    lemma_rt_str(b, p + al, "id".spec_bytes());
    lemma_subrange_shift(b, p, al + kl, al + kl + vl, e);
    assert(e.subrange(al + kl, al + kl + vl) =~= v);
    lemma_rt_str(b, p + al + kl, id);
}

// ---------------------------------------------------------------------------
// The outbound skill request
// ---------------------------------------------------------------------------

/// The message the hub sends a skill: who is asking, the exchange id, and
/// the request envelope; the two envelopes pass through as opaque payloads.
pub open spec fn s_enc_skill_request(client: Seq<u8>, request_id: u64, request: Seq<u8>) -> Seq<
    u8,
> {
    s_enc_maphdr(3) + s_enc_str("client".spec_bytes()) + s_enc_bin(client) + s_enc_str(
        "request_id".spec_bytes(),
    ) + s_enc_uint(request_id as int) + s_enc_str("request".spec_bytes()) + s_enc_bin(request)
}

pub open spec fn s_dec_skill_request(b: Seq<u8>, p: int) -> Result<
    ((Seq<u8>, u64, Seq<u8>), int),
    DecodeError,
> {
    match s_dec_maphdr(b, p) {
        Err(e) => Err(e),
        Ok((n, q)) => if n != 3 {
            Err(DecodeError::Malformed)
        } else {
            match s_dec_str(b, q) {
                Err(e) => Err(e),
                Ok((k1, q1)) => if k1 != "client".spec_bytes() {
                    Err(DecodeError::Malformed)
                } else {
                    match s_dec_bin(b, q1) {
                        Err(e) => Err(e),
                        Ok((client, q2)) => match s_dec_str(b, q2) {
                            Err(e) => Err(e),
                            Ok((k2, q3)) => if k2 != "request_id".spec_bytes() {
                                Err(DecodeError::Malformed)
                            } else {
                                match s_dec_uint(b, q3) {
                                    Err(e) => Err(e),
                                    Ok((rid, q4)) => match s_dec_str(b, q4) {
                                        Err(e) => Err(e),
                                        Ok((k3, q5)) => if k3 != "request".spec_bytes() {
                                            Err(DecodeError::Malformed)
                                        } else {
                                            match s_dec_bin(b, q5) {
                                                Err(e) => Err(e),
                                                Ok((request, q6)) => Ok((
                                                    (client, rid, request),
                                                    q6,
                                                )),
                                            }
                                        },
                                    },
                                }
                            },
                        },
                    }
                },
            }
        },
    }
}

/// Encodes an outbound skill request.
pub fn encode_skill_request(m: &MsgSkillRequest) -> (r: Vec<u8>)
    requires
        m.client@.len() < 0x100000000,
        m.request@.len() < 0x100000000,
    ensures
        r@ == s_enc_skill_request(m.client@, m.request_id, m.request@),
{
    proof {
        reveal_strlit("client");
        reveal_strlit("request_id");
        reveal_strlit("request");
        assert(is_ascii("client"));
        assert(is_ascii("request_id"));
        assert(is_ascii("request"));
    }
    let mut out: Vec<u8> = Vec::new();
    enc_maphdr(&mut out, 3);
    let k1 = key_bytes("client");
    enc_str(&mut out, &k1);
    enc_bin(&mut out, &m.client);
    let k2 = key_bytes("request_id");
    enc_str(&mut out, &k2);
    enc_uint(&mut out, m.request_id);
    let k3 = key_bytes("request");
    enc_str(&mut out, &k3);
    enc_bin(&mut out, &m.request);
    proof {
        assert(out@ =~= s_enc_skill_request(m.client@, m.request_id, m.request@));
    }
    out
}

/// Decodes an outbound skill request (as a skill would).
pub fn decode_skill_request(b: &Vec<u8>) -> (r: Result<MsgSkillRequest, DecodeError>)
    ensures
        (match r {
            Ok(m) => s_dec_skill_request(b@, 0) matches Ok(t) && t.0 == (
                m.client@,
                m.request_id,
                m.request@,
            ),
            Err(e) => s_dec_skill_request(b@, 0) == Err::<
                ((Seq<u8>, u64, Seq<u8>), int),
                DecodeError,
            >(e),
        }),
{
    proof {
        reveal_strlit("client");
        reveal_strlit("request_id");
        reveal_strlit("request");
        assert(is_ascii("client"));
        assert(is_ascii("request_id"));
        assert(is_ascii("request"));
    }
    let (n, q) = match dec_maphdr(b, 0) {
        Ok(t) => t,
        Err(e) => { return Err(e); },
    };
    if n != 3 {
        return Err(DecodeError::Malformed);
    }
    let (k1, q1) = match dec_str(b, q) {
        Ok(t) => t,
        Err(e) => { return Err(e); },
    };
    let e1 = key_bytes("client");
    if !bytes_eq(&k1, &e1) {
        return Err(DecodeError::Malformed);
    }
    let (client, q2) = match dec_bin(b, q1) {
        Ok(t) => t,
        Err(e) => { return Err(e); },
    };
    let (k2, q3) = match dec_str(b, q2) {
        Ok(t) => t,
        Err(e) => { return Err(e); },
    };
    let e2 = key_bytes("request_id");
    if !bytes_eq(&k2, &e2) {
        return Err(DecodeError::Malformed);
    }
    let (rid, q4) = match dec_uint(b, q3) {
        Ok(t) => t,
        Err(e) => { return Err(e); },
    };
    let (k3, q5) = match dec_str(b, q4) {
        Ok(t) => t,
        Err(e) => { return Err(e); },
    };
    let e3 = key_bytes("request");
    if !bytes_eq(&k3, &e3) {
        return Err(DecodeError::Malformed);
    }
    let (request, q6) = match dec_bin(b, q5) {
        Ok(t) => t,
        Err(e) => { return Err(e); },
    };
    let m = MsgSkillRequest { client, request_id: rid, request };
    proof {
        assert(s_dec_skill_request(b@, 0) == Ok::<((Seq<u8>, u64, Seq<u8>), int), DecodeError>((
            (m.client@, m.request_id, m.request@),
            q6 as int,
        )));
    }
    Ok(m)
}

/// A skill request round-trips through the encoding.
pub proof fn lemma_rt_skill_request(b: Seq<u8>, p: int, client: Seq<u8>, rid: u64, request: Seq<u8>)
    requires
        0 <= p,
        client.len() < 0x100000000,
        request.len() < 0x100000000,
        p + s_enc_skill_request(client, rid, request).len() <= b.len(),
        b.subrange(p, p + s_enc_skill_request(client, rid, request).len())
            == s_enc_skill_request(client, rid, request),
    ensures
        s_dec_skill_request(b, p) == Ok::<((Seq<u8>, u64, Seq<u8>), int), DecodeError>((
            (client, rid, request),
            p + s_enc_skill_request(client, rid, request).len(),
        )),
{
    reveal_strlit("client");
    reveal_strlit("request_id");
    reveal_strlit("request");
    assert(is_ascii("client"));
    assert(is_ascii("request_id"));
    assert(is_ascii("request"));
    lemma_ascii_bytes_len("client");
    lemma_ascii_bytes_len("request_id");
    lemma_ascii_bytes_len("request");
    let e = s_enc_skill_request(client, rid, request);
    let s0 = s_enc_maphdr(3);
    let s1 = s_enc_str("client".spec_bytes());
    let s2 = s_enc_bin(client);
    let s3 = s_enc_str("request_id".spec_bytes());
    let s4 = s_enc_uint(rid as int);
    let s5 = s_enc_str("request".spec_bytes());
    let s6 = s_enc_bin(request);
    let p0 = 0int;
    let p1 = p0 + s0.len() as int;
    let p2 = p1 + s1.len() as int;
    let p3 = p2 + s2.len() as int;
    let p4 = p3 + s3.len() as int;
    let p5 = p4 + s4.len() as int;
    let p6 = p5 + s5.len() as int;
    let p7 = p6 + s6.len() as int;
    assert(e.len() == p7);
    lemma_subrange_shift(b, p, p0, p1, e);
    assert(e.subrange(p0, p1) =~= s0);
    lemma_rt_maphdr(b, p, 3);
    lemma_subrange_shift(b, p, p1, p2, e);
    assert(e.subrange(p1, p2) =~= s1);
    lemma_rt_str(b, p + p1, "client".spec_bytes());
    lemma_subrange_shift(b, p, p2, p3, e);
    assert(e.subrange(p2, p3) =~= s2);
    lemma_rt_bin(b, p + p2, client);
    lemma_subrange_shift(b, p, p3, p4, e);
    assert(e.subrange(p3, p4) =~= s3);
    lemma_rt_str(b, p + p3, "request_id".spec_bytes());
    lemma_subrange_shift(b, p, p4, p5, e);
    assert(e.subrange(p4, p5) =~= s4);
    lemma_rt_uint(b, p + p4, rid);
    lemma_subrange_shift(b, p, p5, p6, e);
    assert(e.subrange(p5, p6) =~= s5);
    lemma_rt_str(b, p + p5, "request".spec_bytes());
    lemma_subrange_shift(b, p, p6, p7, e);
    assert(e.subrange(p6, p7) =~= s6);
    lemma_rt_bin(b, p + p6, request);
}

}

verus! {

// ---------------------------------------------------------------------------
// The hub's reply to a notification
// ---------------------------------------------------------------------------

use crate::messages::ResponseItem;
use crate::messages::MsgNotificationResponse;

/// One sub-response: a one-key map naming the kind, holding code and id.
pub open spec fn s_enc_resp_item(it: ResponseItem) -> Seq<u8> {
    match it {
        ResponseItem::CanYouAnswer { code, request_id } => s_enc_maphdr(1) + s_enc_str(
            "CanYouAnswer".spec_bytes(),
        ) + s_enc_maphdr(2) + s_enc_str("code".spec_bytes()) + s_enc_uint(code as int) + s_enc_str(
            "request_id".spec_bytes(),
        ) + s_enc_uint(request_id as int),
        ResponseItem::Requested { code, request_id } => s_enc_maphdr(1) + s_enc_str(
            "Requested".spec_bytes(),
        ) + s_enc_maphdr(2) + s_enc_str("code".spec_bytes()) + s_enc_uint(code as int) + s_enc_str(
            "request_id".spec_bytes(),
        ) + s_enc_uint(request_id as int),
    }
}

/// The items from index `i` on, in order.
pub open spec fn s_enc_resp_items_from(items: Seq<ResponseItem>, i: int) -> Seq<u8>
    decreases items.len() - i,
{
    if i < 0 || i >= items.len() {
        Seq::empty()
    } else {
        s_enc_resp_item(items[i]) + s_enc_resp_items_from(items, i + 1)
    }
}

/// The whole reply: a one-field map holding the sub-response array.
pub open spec fn s_enc_response(items: Seq<ResponseItem>) -> Seq<u8> {
    s_enc_maphdr(1) + s_enc_str("data".spec_bytes()) + s_enc_arrhdr(items.len() as int)
        + s_enc_resp_items_from(items, 0)
}

use crate::msgpack::s_enc_arrhdr;
use crate::msgpack::s_dec_arrhdr;
use crate::msgpack::enc_arrhdr;
use crate::msgpack::dec_arrhdr;
use crate::msgpack::lemma_rt_arrhdr;

pub open spec fn s_dec_resp_item(b: Seq<u8>, p: int) -> Result<(ResponseItem, int), DecodeError> {
    match s_dec_maphdr(b, p) {
        Err(e) => Err(e),
        Ok((n, q)) => if n != 1 {
            Err(DecodeError::Malformed)
        } else {
            match s_dec_str(b, q) {
                Err(e) => Err(e),
                Ok((k, q1)) => if k == "CanYouAnswer".spec_bytes() || k
                    == "Requested".spec_bytes() {
                    match s_dec_maphdr(b, q1) {
                        Err(e) => Err(e),
                        Ok((n2, q2)) => if n2 != 2 {
                            Err(DecodeError::Malformed)
                        } else {
                            match s_dec_str(b, q2) {
                                Err(e) => Err(e),
                                Ok((k1, q3)) => if k1 != "code".spec_bytes() {
                                    Err(DecodeError::Malformed)
                                } else {
                                    match s_dec_uint(b, q3) {
                                        Err(e) => Err(e),
                                        Ok((code, q4)) => if code > 0xffff {
                                            Err(DecodeError::Malformed)
                                        } else {
                                            match s_dec_str(b, q4) {
                                                Err(e) => Err(e),
                                                Ok((k2, q5)) => if k2
                                                    != "request_id".spec_bytes() {
                                                    Err(DecodeError::Malformed)
                                                } else {
                                                    match s_dec_uint(b, q5) {
                                                        Err(e) => Err(e),
                                                        Ok((rid, q6)) => if k
                                                            == "CanYouAnswer".spec_bytes() {
                                                            Ok((
                                                                ResponseItem::CanYouAnswer {
                                                                    code: code as u16,
                                                                    request_id: rid,
                                                                },
                                                                q6,
                                                            ))
                                                        } else {
                                                            Ok((
                                                                ResponseItem::Requested {
                                                                    code: code as u16,
                                                                    request_id: rid,
                                                                },
                                                                q6,
                                                            ))
                                                        },
                                                    }
                                                },
                                            }
                                        },
                                    }
                                },
                            }
                        },
                    }
                } else {
                    Err(DecodeError::Malformed)
                },
            }
        },
    }
}

pub open spec fn s_dec_resp_items(b: Seq<u8>, p: int, n: nat) -> Result<
    (Seq<ResponseItem>, int),
    DecodeError,
>
    decreases n,
{
    if n == 0 {
        Ok((Seq::empty(), p))
    } else {
        match s_dec_resp_item(b, p) {
            Err(e) => Err(e),
            Ok((it, q)) => match s_dec_resp_items(b, q, (n - 1) as nat) {
                Err(e) => Err(e),
                Ok((rest, r)) => Ok((seq![it] + rest, r)),
            },
        }
    }
}

pub open spec fn s_dec_response(b: Seq<u8>, p: int) -> Result<
    (Seq<ResponseItem>, int),
    DecodeError,
> {
    match s_dec_maphdr(b, p) {
        Err(e) => Err(e),
        Ok((n, q)) => if n != 1 {
            Err(DecodeError::Malformed)
        } else {
            match s_dec_str(b, q) {
                Err(e) => Err(e),
                Ok((k, q1)) => if k != "data".spec_bytes() {
                    Err(DecodeError::Malformed)
                } else {
                    match s_dec_arrhdr(b, q1) {
                        Err(e) => Err(e),
                        Ok((n2, q2)) => s_dec_resp_items(b, q2, n2 as nat),
                    }
                },
            }
        },
    }
}

fn enc_resp_item(out: &mut Vec<u8>, it: &ResponseItem)
    ensures
        final(out)@ == old(out)@ + s_enc_resp_item(*it),
{
    proof {
        reveal_strlit("CanYouAnswer");
        reveal_strlit("Requested");
        reveal_strlit("code");
        reveal_strlit("request_id");
        assert(is_ascii("CanYouAnswer"));
        assert(is_ascii("Requested"));
        assert(is_ascii("code"));
        assert(is_ascii("request_id"));
    }
    match it {
        ResponseItem::CanYouAnswer { code, request_id } => {
            enc_maphdr(out, 1);
            let k = key_bytes("CanYouAnswer");
            enc_str(out, &k);
            enc_maphdr(out, 2);
            let k1 = key_bytes("code");
            enc_str(out, &k1);
            enc_uint(out, *code as u64);
            let k2 = key_bytes("request_id");
            enc_str(out, &k2);
            enc_uint(out, *request_id);
            proof {
                assert(out@ =~= old(out)@ + s_enc_resp_item(*it));
            }
        },
        ResponseItem::Requested { code, request_id } => {
            enc_maphdr(out, 1);
            let k = key_bytes("Requested");
            enc_str(out, &k);
            enc_maphdr(out, 2);
            let k1 = key_bytes("code");
            enc_str(out, &k1);
            enc_uint(out, *code as u64);
            let k2 = key_bytes("request_id");
            enc_str(out, &k2);
            enc_uint(out, *request_id);
            proof {
                assert(out@ =~= old(out)@ + s_enc_resp_item(*it));
            }
        },
    }
}

/// Encodes the hub's reply to a notification.
pub fn encode_notification_response(m: &MsgNotificationResponse) -> (r: Vec<u8>)
    requires
        m.data@.len() < 0x100000000,
    ensures
        r@ == s_enc_response(m.data@),
{
    proof {
        reveal_strlit("data");
        assert(is_ascii("data"));
    }
    let mut out: Vec<u8> = Vec::new();
    enc_maphdr(&mut out, 1);
    let k = key_bytes("data");
    enc_str(&mut out, &k);
    enc_arrhdr(&mut out, m.data.len());
    let ghost pfx = out@;
    let mut i: usize = 0;
    while i < m.data.len()
        invariant
            i <= m.data@.len(),
            out@ == pfx + s_enc_resp_items_upto(m.data@, i as int),
        decreases m.data@.len() - i,
    {
        enc_resp_item(&mut out, &m.data[i]);
        proof {
            assert(out@ =~= pfx + s_enc_resp_items_upto(m.data@, i + 1));
        }
        i += 1;
    }
    proof {
        lemma_resp_items_upto_all(m.data@);
        assert(out@ =~= s_enc_response(m.data@));
    }
    out
}

/// The items before index `i`, in order.
pub open spec fn s_enc_resp_items_upto(items: Seq<ResponseItem>, i: int) -> Seq<u8>
    decreases i,
{
    if i <= 0 || i > items.len() {
        Seq::empty()
    } else {
        s_enc_resp_items_upto(items, i - 1) + s_enc_resp_item(items[i - 1])
    }
}

/// Every item taken in front order or in back order yields the same bytes.
pub proof fn lemma_resp_items_split(items: Seq<ResponseItem>, i: int)
    requires
        0 <= i <= items.len(),
    ensures
        s_enc_resp_items_upto(items, i) + s_enc_resp_items_from(items, i)
            == s_enc_resp_items_from(items, 0),
    decreases i,
{
    if i == 0 {
        assert(s_enc_resp_items_upto(items, 0) + s_enc_resp_items_from(items, 0) =~=
            s_enc_resp_items_from(items, 0));
    } else {
        lemma_resp_items_split(items, i - 1);
        assert(s_enc_resp_items_from(items, i - 1) == s_enc_resp_item(items[i - 1])
            + s_enc_resp_items_from(items, i));
        assert(s_enc_resp_items_upto(items, i) + s_enc_resp_items_from(items, i) =~=
            s_enc_resp_items_upto(items, i - 1) + s_enc_resp_items_from(items, i - 1));
    }
}

pub proof fn lemma_resp_items_upto_all(items: Seq<ResponseItem>)
    ensures
        s_enc_resp_items_upto(items, items.len() as int) == s_enc_resp_items_from(items, 0),
{
    lemma_resp_items_split(items, items.len() as int);
    assert(s_enc_resp_items_upto(items, items.len() as int) + Seq::<u8>::empty() =~=
        s_enc_resp_items_upto(items, items.len() as int));
}

}

verus! {

pub proof fn lemma_rt_resp_item(b: Seq<u8>, p: int, it: ResponseItem)
    requires
        0 <= p,
        p + s_enc_resp_item(it).len() <= b.len(),
        b.subrange(p, p + s_enc_resp_item(it).len()) == s_enc_resp_item(it),
    ensures
        s_dec_resp_item(b, p) == Ok::<(ResponseItem, int), DecodeError>((
            it,
            p + s_enc_resp_item(it).len(),
        )),
{
    reveal_strlit("CanYouAnswer");
    reveal_strlit("Requested");
    reveal_strlit("code");
    reveal_strlit("request_id");
    assert(is_ascii("CanYouAnswer"));
    assert(is_ascii("Requested"));
    assert(is_ascii("code"));
    assert(is_ascii("request_id"));
    lemma_ascii_bytes_len("CanYouAnswer");
    lemma_ascii_bytes_len("Requested");
    lemma_ascii_bytes_len("code");
    lemma_ascii_bytes_len("request_id");
    let e = s_enc_resp_item(it);
    let (key, code, rid): (Seq<u8>, u16, u64) = match it {
        ResponseItem::CanYouAnswer { code, request_id } => (
            "CanYouAnswer".spec_bytes(),
            code,
            request_id,
        ),
        ResponseItem::Requested { code, request_id } => (
            "Requested".spec_bytes(),
            code,
            request_id,
        ),
    };
    let s0 = s_enc_maphdr(1);
    let s1 = s_enc_str(key);
    let s2 = s_enc_maphdr(2);
    let s3 = s_enc_str("code".spec_bytes());
    let s4 = s_enc_uint(code as int);
    let s5 = s_enc_str("request_id".spec_bytes());
    let s6 = s_enc_uint(rid as int);
    let p0 = 0int;
    let p1 = p0 + s0.len() as int;
    let p2 = p1 + s1.len() as int;
    let p3 = p2 + s2.len() as int;
    let p4 = p3 + s3.len() as int;
    let p5 = p4 + s4.len() as int;
    let p6 = p5 + s5.len() as int;
    let p7 = p6 + s6.len() as int;
    assert(e =~= s0 + s1 + s2 + s3 + s4 + s5 + s6);
    assert(e.len() == p7);
    lemma_subrange_shift(b, p, p0, p1, e);
    assert(e.subrange(p0, p1) =~= s0);
    lemma_rt_maphdr(b, p, 1);
    lemma_subrange_shift(b, p, p1, p2, e);
    assert(e.subrange(p1, p2) =~= s1);
    lemma_rt_str(b, p + p1, key);
    lemma_subrange_shift(b, p, p2, p3, e);
    assert(e.subrange(p2, p3) =~= s2);
    lemma_rt_maphdr(b, p + p2, 2);
    lemma_subrange_shift(b, p, p3, p4, e);
    assert(e.subrange(p3, p4) =~= s3);
    lemma_rt_str(b, p + p3, "code".spec_bytes());
    lemma_subrange_shift(b, p, p4, p5, e);
    assert(e.subrange(p4, p5) =~= s4);
    lemma_rt_uint(b, p + p4, code as u64);
    lemma_subrange_shift(b, p, p5, p6, e);
    assert(e.subrange(p5, p6) =~= s5);
    lemma_rt_str(b, p + p5, "request_id".spec_bytes());
    lemma_subrange_shift(b, p, p6, p7, e);
    assert(e.subrange(p6, p7) =~= s6);
    lemma_rt_uint(b, p + p6, rid);
}

#[verifier::spinoff_prover]
#[verifier::rlimit(60)]
pub proof fn lemma_rt_resp_items(b: Seq<u8>, p: int, items: Seq<ResponseItem>, i: int)
    requires
        0 <= p,
        0 <= i <= items.len(),
        p + s_enc_resp_items_from(items, i).len() <= b.len(),
        b.subrange(p, p + s_enc_resp_items_from(items, i).len()) == s_enc_resp_items_from(
            items,
            i,
        ),
    ensures
        s_dec_resp_items(b, p, (items.len() - i) as nat) == Ok::<
            (Seq<ResponseItem>, int),
            DecodeError,
        >((items.skip(i), p + s_enc_resp_items_from(items, i).len())),
    decreases items.len() - i,
{
    let e = s_enc_resp_items_from(items, i);
    if i == items.len() {
        assert(items.skip(i) =~= Seq::<ResponseItem>::empty());
    } else {
        let s0 = s_enc_resp_item(items[i]);
        let s1 = s_enc_resp_items_from(items, i + 1);
        assert(e == s0 + s1);
        lemma_subrange_shift(b, p, 0, s0.len() as int, e);
        assert(e.subrange(0, s0.len() as int) =~= s0);
        lemma_rt_resp_item(b, p, items[i]);
        lemma_subrange_shift(b, p, s0.len() as int, e.len() as int, e);
        assert(e.subrange(s0.len() as int, e.len() as int) =~= s1);
        lemma_rt_resp_items(b, p + s0.len(), items, i + 1);
        assert(seq![items[i]] + items.skip(i + 1) =~= items.skip(i));
    }
}

/// Re-decoding an encoded notification reply finds the same sub-responses.
pub proof fn lemma_rt_response(b: Seq<u8>, p: int, items: Seq<ResponseItem>)
    requires
        0 <= p,
        items.len() < 0x100000000,
        p + s_enc_response(items).len() <= b.len(),
        b.subrange(p, p + s_enc_response(items).len()) == s_enc_response(items),
    ensures
        s_dec_response(b, p) == Ok::<(Seq<ResponseItem>, int), DecodeError>((
            items,
            p + s_enc_response(items).len(),
        )),
{
    reveal_strlit("data");
    assert(is_ascii("data"));
    lemma_ascii_bytes_len("data");
    let e = s_enc_response(items);
    let s0 = s_enc_maphdr(1);
    let s1 = s_enc_str("data".spec_bytes());
    let s2 = s_enc_arrhdr(items.len() as int);
    let s3 = s_enc_resp_items_from(items, 0);
    let p0 = 0int;
    let p1 = p0 + s0.len() as int;
    let p2 = p1 + s1.len() as int;
    let p3 = p2 + s2.len() as int;
    let p4 = p3 + s3.len() as int;
    assert(e.len() == p4);
    lemma_subrange_shift(b, p, p0, p1, e);
    assert(e.subrange(p0, p1) =~= s0);
    lemma_rt_maphdr(b, p, 1);
    lemma_subrange_shift(b, p, p1, p2, e);
    assert(e.subrange(p1, p2) =~= s1);
    lemma_rt_str(b, p + p1, "data".spec_bytes());
    lemma_subrange_shift(b, p, p2, p3, e);
    assert(e.subrange(p2, p3) =~= s2);
    lemma_rt_arrhdr(b, p + p2, items.len() as int);
    lemma_subrange_shift(b, p, p3, p4, e);
    assert(e.subrange(p3, p4) =~= s3);
    lemma_rt_resp_items(b, p + p3, items, 0);
    assert(items.skip(0) =~= items);
}

}

verus! {

// ---------------------------------------------------------------------------
// The batched notification a skill posts
// ---------------------------------------------------------------------------

use crate::messages::NotificationItem;
use crate::messages::MsgNotification;
use crate::msgpack::s_enc_f32;
use crate::msgpack::s_dec_f32;
use crate::msgpack::enc_f32;
use crate::msgpack::dec_f32;
use crate::msgpack::lemma_rt_f32;

/// The mathematical shape of one notification entry: ids and payloads as
/// byte sequences, the confidence as the float's bit pattern.
pub enum ItemModel {
    CanYouAnswer { request_id: u64, confidence: u32 },
    Requested { request_id: u64, capabilities: Seq<Seq<u8>> },
    StandAlone { client_id: Seq<u8>, capabilities: Seq<Seq<u8>> },
}

pub open spec fn caps_model(c: Seq<Vec<u8>>) -> Seq<Seq<u8>> {
    c.map_values(|v: Vec<u8>| v@)
}

pub open spec fn item_model(i: NotificationItem) -> ItemModel {
    match i {
        NotificationItem::CanYouAnswer { request_id, confidence } => ItemModel::CanYouAnswer {
            request_id,
            confidence,
        },
        NotificationItem::Requested { request_id, capabilities } => ItemModel::Requested {
            request_id,
            capabilities: caps_model(capabilities@),
        },
        NotificationItem::StandAlone { client_id, capabilities } => ItemModel::StandAlone {
            client_id: client_id@,
            capabilities: caps_model(capabilities@),
        },
    }
}

pub open spec fn items_model(s: Seq<NotificationItem>) -> Seq<ItemModel> {
    s.map_values(|i: NotificationItem| item_model(i))
}

pub open spec fn wf_caps(c: Seq<Seq<u8>>) -> bool {
    c.len() < 0x100000000 && (forall|j: int| 0 <= j < c.len() ==> (#[trigger] c[j]).len()
        < 0x100000000)
}

pub open spec fn wf_item(it: ItemModel) -> bool {
    match it {
        ItemModel::CanYouAnswer { .. } => true,
        ItemModel::Requested { capabilities, .. } => wf_caps(capabilities),
        ItemModel::StandAlone { client_id, capabilities } => client_id.len() < 0x100000000
            && wf_caps(capabilities),
    }
}

/// The bounds under which a notification can be written at all.
pub open spec fn wf_notification(skill_id: Seq<u8>, items: Seq<ItemModel>) -> bool {
    skill_id.len() < 0x100000000 && items.len() < 0x100000000 && (forall|j: int|
        0 <= j < items.len() ==> wf_item(#[trigger] items[j]))
}

pub open spec fn s_enc_caps_from(c: Seq<Seq<u8>>, i: int) -> Seq<u8>
    decreases c.len() - i,
{
    if i < 0 || i >= c.len() {
        Seq::empty()
    } else {
        s_enc_bin(c[i]) + s_enc_caps_from(c, i + 1)
    }
}

pub open spec fn s_enc_caps_upto(c: Seq<Seq<u8>>, i: int) -> Seq<u8>
    decreases i,
{
    if i <= 0 || i > c.len() {
        Seq::empty()
    } else {
        s_enc_caps_upto(c, i - 1) + s_enc_bin(c[i - 1])
    }
}

pub proof fn lemma_caps_split(c: Seq<Seq<u8>>, i: int)
    requires
        0 <= i <= c.len(),
    ensures
        s_enc_caps_upto(c, i) + s_enc_caps_from(c, i) == s_enc_caps_from(c, 0),
    decreases i,
{
    if i == 0 {
        assert(s_enc_caps_upto(c, 0) + s_enc_caps_from(c, 0) =~= s_enc_caps_from(c, 0));
    } else {
        lemma_caps_split(c, i - 1);
        assert(s_enc_caps_upto(c, i) + s_enc_caps_from(c, i) =~= s_enc_caps_upto(c, i - 1)
            + s_enc_caps_from(c, i - 1));
    }
}

/// A capability batch: an array of opaque payloads.
pub open spec fn s_enc_caps(c: Seq<Seq<u8>>) -> Seq<u8> {
    s_enc_arrhdr(c.len() as int) + s_enc_caps_from(c, 0)
}

pub open spec fn s_dec_caps(b: Seq<u8>, p: int, n: nat) -> Result<(Seq<Seq<u8>>, int), DecodeError>
    decreases n,
{
    if n == 0 {
        Ok((Seq::empty(), p))
    } else {
        match s_dec_bin(b, p) {
            Err(e) => Err(e),
            Ok((v, q)) => match s_dec_caps(b, q, (n - 1) as nat) {
                Err(e) => Err(e),
                Ok((rest, r)) => Ok((seq![v] + rest, r)),
            },
        }
    }
}

pub open spec fn s_enc_notif_item(it: ItemModel) -> Seq<u8> {
    match it {
        ItemModel::CanYouAnswer { request_id, confidence } => s_enc_maphdr(1) + s_enc_str(
            "CanYouAnswer".spec_bytes(),
        ) + s_enc_maphdr(2) + s_enc_str("request_id".spec_bytes()) + s_enc_uint(request_id as int)
            + s_enc_str("confidence".spec_bytes()) + s_enc_f32(confidence),
        ItemModel::Requested { request_id, capabilities } => s_enc_maphdr(1) + s_enc_str(
            "Requested".spec_bytes(),
        ) + s_enc_maphdr(2) + s_enc_str("request_id".spec_bytes()) + s_enc_uint(request_id as int)
            + s_enc_str("capabilities".spec_bytes()) + s_enc_caps(capabilities),
        ItemModel::StandAlone { client_id, capabilities } => s_enc_maphdr(1) + s_enc_str(
            "StandAlone".spec_bytes(),
        ) + s_enc_maphdr(2) + s_enc_str("client_id".spec_bytes()) + s_enc_str(client_id)
            + s_enc_str("capabilities".spec_bytes()) + s_enc_caps(capabilities),
    }
}

pub open spec fn s_dec_item_cya(b: Seq<u8>, p: int) -> Result<(ItemModel, int), DecodeError> {
    match s_dec_maphdr(b, p) {
        Err(e) => Err(e),
        Ok((n2, q2)) => if n2 != 2 {
            Err(DecodeError::Malformed)
        } else {
            match s_dec_str(b, q2) {
                Err(e) => Err(e),
                Ok((k1, q3)) => if k1 != "request_id".spec_bytes() {
                    Err(DecodeError::Malformed)
                } else {
                    match s_dec_uint(b, q3) {
                        Err(e) => Err(e),
                        Ok((rid, q4)) => match s_dec_str(b, q4) {
                            Err(e) => Err(e),
                            Ok((k2, q5)) => if k2 != "confidence".spec_bytes() {
                                Err(DecodeError::Malformed)
                            } else {
                                match s_dec_f32(b, q5) {
                                    Err(e) => Err(e),
                                    Ok((bits, q6)) => Ok((
                                        ItemModel::CanYouAnswer {
                                            request_id: rid,
                                            confidence: bits,
                                        },
                                        q6,
                                    )),
                                }
                            },
                        },
                    }
                },
            }
        },
    }
}

pub open spec fn s_dec_item_req(b: Seq<u8>, p: int) -> Result<(ItemModel, int), DecodeError> {
    match s_dec_maphdr(b, p) {
        Err(e) => Err(e),
        Ok((n2, q2)) => if n2 != 2 {
            Err(DecodeError::Malformed)
        } else {
            match s_dec_str(b, q2) {
                Err(e) => Err(e),
                Ok((k1, q3)) => if k1 != "request_id".spec_bytes() {
                    Err(DecodeError::Malformed)
                } else {
                    match s_dec_uint(b, q3) {
                        Err(e) => Err(e),
                        Ok((rid, q4)) => match s_dec_str(b, q4) {
                            Err(e) => Err(e),
                            Ok((k2, q5)) => if k2 != "capabilities".spec_bytes() {
                                Err(DecodeError::Malformed)
                            } else {
                                match s_dec_arrhdr(b, q5) {
                                    Err(e) => Err(e),
                                    Ok((cn, q6)) => match s_dec_caps(b, q6, cn as nat) {
                                        Err(e) => Err(e),
                                        Ok((caps, q7)) => Ok((
                                            ItemModel::Requested {
                                                request_id: rid,
                                                capabilities: caps,
                                            },
                                            q7,
                                        )),
                                    },
                                }
                            },
                        },
                    }
                },
            }
        },
    }
}

pub open spec fn s_dec_item_sa(b: Seq<u8>, p: int) -> Result<(ItemModel, int), DecodeError> {
    match s_dec_maphdr(b, p) {
        Err(e) => Err(e),
        Ok((n2, q2)) => if n2 != 2 {
            Err(DecodeError::Malformed)
        } else {
            match s_dec_str(b, q2) {
                Err(e) => Err(e),
                Ok((k1, q3)) => if k1 != "client_id".spec_bytes() {
                    Err(DecodeError::Malformed)
                } else {
                    match s_dec_str(b, q3) {
                        Err(e) => Err(e),
                        Ok((cid, q4)) => match s_dec_str(b, q4) {
                            Err(e) => Err(e),
                            Ok((k2, q5)) => if k2 != "capabilities".spec_bytes() {
                                Err(DecodeError::Malformed)
                            } else {
                                match s_dec_arrhdr(b, q5) {
                                    Err(e) => Err(e),
                                    Ok((cn, q6)) => match s_dec_caps(b, q6, cn as nat) {
                                        Err(e) => Err(e),
                                        Ok((caps, q7)) => Ok((
                                            ItemModel::StandAlone {
                                                client_id: cid,
                                                capabilities: caps,
                                            },
                                            q7,
                                        )),
                                    },
                                }
                            },
                        },
                    }
                },
            }
        },
    }
}

pub open spec fn s_dec_notif_item(b: Seq<u8>, p: int) -> Result<(ItemModel, int), DecodeError> {
    match s_dec_maphdr(b, p) {
        Err(e) => Err(e),
        Ok((n, q)) => if n != 1 {
            Err(DecodeError::Malformed)
        } else {
            match s_dec_str(b, q) {
                Err(e) => Err(e),
                Ok((k, q1)) => if k == "CanYouAnswer".spec_bytes() {
                    s_dec_item_cya(b, q1)
                } else if k == "Requested".spec_bytes() {
                    s_dec_item_req(b, q1)
                } else if k == "StandAlone".spec_bytes() {
                    s_dec_item_sa(b, q1)
                } else {
                    Err(DecodeError::Malformed)
                },
            }
        },
    }
}

pub open spec fn s_enc_notif_items_from(items: Seq<ItemModel>, i: int) -> Seq<u8>
    decreases items.len() - i,
{
    if i < 0 || i >= items.len() {
        Seq::empty()
    } else {
        s_enc_notif_item(items[i]) + s_enc_notif_items_from(items, i + 1)
    }
}

pub open spec fn s_enc_notif_items_upto(items: Seq<ItemModel>, i: int) -> Seq<u8>
    decreases i,
{
    if i <= 0 || i > items.len() {
        Seq::empty()
    } else {
        s_enc_notif_items_upto(items, i - 1) + s_enc_notif_item(items[i - 1])
    }
}

pub proof fn lemma_notif_items_split(items: Seq<ItemModel>, i: int)
    requires
        0 <= i <= items.len(),
    ensures
        s_enc_notif_items_upto(items, i) + s_enc_notif_items_from(items, i)
            == s_enc_notif_items_from(items, 0),
    decreases i,
{
    if i == 0 {
        assert(s_enc_notif_items_upto(items, 0) + s_enc_notif_items_from(items, 0) =~=
            s_enc_notif_items_from(items, 0));
    } else {
        lemma_notif_items_split(items, i - 1);
        assert(s_enc_notif_items_upto(items, i) + s_enc_notif_items_from(items, i) =~=
            s_enc_notif_items_upto(items, i - 1) + s_enc_notif_items_from(items, i - 1));
    }
}

pub open spec fn s_dec_notif_items(b: Seq<u8>, p: int, n: nat) -> Result<
    (Seq<ItemModel>, int),
    DecodeError,
>
    decreases n,
{
    if n == 0 {
        Ok((Seq::empty(), p))
    } else {
        match s_dec_notif_item(b, p) {
            Err(e) => Err(e),
            Ok((it, q)) => match s_dec_notif_items(b, q, (n - 1) as nat) {
                Err(e) => Err(e),
                Ok((rest, r)) => Ok((seq![it] + rest, r)),
            },
        }
    }
}

/// A notification: the skill's identity and the entry array.
pub open spec fn s_enc_notification(skill_id: Seq<u8>, items: Seq<ItemModel>) -> Seq<u8> {
    s_enc_maphdr(2) + s_enc_str("skill_id".spec_bytes()) + s_enc_str(skill_id) + s_enc_str(
        "data".spec_bytes(),
    ) + s_enc_arrhdr(items.len() as int) + s_enc_notif_items_from(items, 0)
}

pub open spec fn s_dec_notification(b: Seq<u8>, p: int) -> Result<
    ((Seq<u8>, Seq<ItemModel>), int),
    DecodeError,
> {
    match s_dec_maphdr(b, p) {
        Err(e) => Err(e),
        Ok((n, q)) => if n != 2 {
            Err(DecodeError::Malformed)
        } else {
            match s_dec_str(b, q) {
                Err(e) => Err(e),
                Ok((k1, q1)) => if k1 != "skill_id".spec_bytes() {
                    Err(DecodeError::Malformed)
                } else {
                    match s_dec_str(b, q1) {
                        Err(e) => Err(e),
                        Ok((sid, q2)) => match s_dec_str(b, q2) {
                            Err(e) => Err(e),
                            Ok((k2, q3)) => if k2 != "data".spec_bytes() {
                                Err(DecodeError::Malformed)
                            } else {
                                match s_dec_arrhdr(b, q3) {
                                    Err(e) => Err(e),
                                    Ok((n2, q4)) => match s_dec_notif_items(b, q4, n2 as nat) {
                                        Err(e) => Err(e),
                                        Ok((items, q5)) => Ok(((sid, items), q5)),
                                    },
                                }
                            },
                        },
                    }
                },
            }
        },
    }
}

}

verus! {

fn dec_caps(b: &Vec<u8>, p: usize, n: usize) -> (r: Result<(Vec<Vec<u8>>, usize), DecodeError>)
    ensures
        (match r {
            Ok((caps, q)) => s_dec_caps(b@, p as int, n as nat) == Ok::<
                (Seq<Seq<u8>>, int),
                DecodeError,
            >((caps_model(caps@), q as int)),
            Err(e) => s_dec_caps(b@, p as int, n as nat) == Err::<(Seq<Seq<u8>>, int), DecodeError>(
                e,
            ),
        }),
{
    let mut acc: Vec<Vec<u8>> = Vec::new();
    let mut cur = p;
    let mut i: usize = 0;
    proof {
        assert(caps_model(acc@) + Seq::<Seq<u8>>::empty() =~= caps_model(acc@));
    }
    while i < n
        invariant
            i <= n,
            (match s_dec_caps(b@, cur as int, (n - i) as nat) {
                Ok((rest, q)) => s_dec_caps(b@, p as int, n as nat) == Ok::<
                    (Seq<Seq<u8>>, int),
                    DecodeError,
                >((caps_model(acc@) + rest, q)),
                Err(e) => s_dec_caps(b@, p as int, n as nat) == Err::<
                    (Seq<Seq<u8>>, int),
                    DecodeError,
                >(e),
            }),
        decreases n - i,
    {
        let ghost k = (n - i) as nat;
        match dec_bin(b, cur) {
            Ok((v, q)) => {
                proof {
                    assert(caps_model(acc@.push(v)) =~= caps_model(acc@) + seq![v@]);
                    if let Ok((rest, r2)) = s_dec_caps(b@, q as int, (k - 1) as nat) {
                        assert((caps_model(acc@) + (seq![v@] + rest)) =~= (caps_model(acc@) + seq![
                            v@,
                        ]) + rest);
                    }
                }
                acc.push(v);
                cur = q;
                i += 1;
            },
            Err(e) => {
                return Err(e);
            },
        }
    }
    proof {
        assert(caps_model(acc@) + Seq::<Seq<u8>>::empty() =~= caps_model(acc@));
    }
    Ok((acc, cur))
}

fn dec_item_cya(b: &Vec<u8>, p: usize) -> (r: Result<(NotificationItem, usize), DecodeError>)
    ensures
        (match r {
            Ok((it, q)) => s_dec_item_cya(b@, p as int) == Ok::<(ItemModel, int), DecodeError>((
                item_model(it),
                q as int,
            )) && it is CanYouAnswer,
            Err(e) => s_dec_item_cya(b@, p as int) == Err::<(ItemModel, int), DecodeError>(e),
        }),
{
    proof {
        reveal_strlit("request_id");
        reveal_strlit("confidence");
        assert(is_ascii("request_id"));
        assert(is_ascii("confidence"));
    }
    let (n2, q2) = match dec_maphdr(b, p) {
        Ok(t) => t,
        Err(e) => { return Err(e); },
    };
    if n2 != 2 {
        return Err(DecodeError::Malformed);
    }
    let (k1, q3) = match dec_str(b, q2) {
        Ok(t) => t,
        Err(e) => { return Err(e); },
    };
    let k_rid = key_bytes("request_id");
    if !bytes_eq(&k1, &k_rid) {
        return Err(DecodeError::Malformed);
    }
    let (rid, q4) = match dec_uint(b, q3) {
        Ok(t) => t,
        Err(e) => { return Err(e); },
    };
    let (k2, q5) = match dec_str(b, q4) {
        Ok(t) => t,
        Err(e) => { return Err(e); },
    };
    let k_conf = key_bytes("confidence");
    if !bytes_eq(&k2, &k_conf) {
        return Err(DecodeError::Malformed);
    }
    let (bits, q6) = match dec_f32(b, q5) {
        Ok(t) => t,
        Err(e) => { return Err(e); },
    };
    Ok((NotificationItem::CanYouAnswer { request_id: rid, confidence: bits }, q6))
}

fn dec_item_req(b: &Vec<u8>, p: usize) -> (r: Result<(NotificationItem, usize), DecodeError>)
    ensures
        (match r {
            Ok((it, q)) => s_dec_item_req(b@, p as int) == Ok::<(ItemModel, int), DecodeError>((
                item_model(it),
                q as int,
            )) && it is Requested,
            Err(e) => s_dec_item_req(b@, p as int) == Err::<(ItemModel, int), DecodeError>(e),
        }),
{
    proof {
        reveal_strlit("request_id");
        reveal_strlit("capabilities");
        assert(is_ascii("request_id"));
        assert(is_ascii("capabilities"));
    }
    let (n2, q2) = match dec_maphdr(b, p) {
        Ok(t) => t,
        Err(e) => { return Err(e); },
    };
    if n2 != 2 {
        return Err(DecodeError::Malformed);
    }
    let (k1, q3) = match dec_str(b, q2) {
        Ok(t) => t,
        Err(e) => { return Err(e); },
    };
    let k_rid = key_bytes("request_id");
    if !bytes_eq(&k1, &k_rid) {
        return Err(DecodeError::Malformed);
    }
    let (rid, q4) = match dec_uint(b, q3) {
        Ok(t) => t,
        Err(e) => { return Err(e); },
    };
    let (k2, q5) = match dec_str(b, q4) {
        Ok(t) => t,
        Err(e) => { return Err(e); },
    };
    let k_caps = key_bytes("capabilities");
    if !bytes_eq(&k2, &k_caps) {
        return Err(DecodeError::Malformed);
    }
    let (cn, q6) = match dec_arrhdr(b, q5) {
        Ok(t) => t,
        Err(e) => { return Err(e); },
    };
    let (caps, q7) = match dec_caps(b, q6, cn) {
        Ok(t) => t,
        Err(e) => { return Err(e); },
    };
    Ok((NotificationItem::Requested { request_id: rid, capabilities: caps }, q7))
}

fn dec_item_sa(b: &Vec<u8>, p: usize) -> (r: Result<(NotificationItem, usize), DecodeError>)
    ensures
        (match r {
            Ok((it, q)) => s_dec_item_sa(b@, p as int) == Ok::<(ItemModel, int), DecodeError>((
                item_model(it),
                q as int,
            )) && it is StandAlone,
            Err(e) => s_dec_item_sa(b@, p as int) == Err::<(ItemModel, int), DecodeError>(e),
        }),
{
    proof {
        reveal_strlit("client_id");
        reveal_strlit("capabilities");
        assert(is_ascii("client_id"));
        assert(is_ascii("capabilities"));
    }
    let (n2, q2) = match dec_maphdr(b, p) {
        Ok(t) => t,
        Err(e) => { return Err(e); },
    };
    if n2 != 2 {
        return Err(DecodeError::Malformed);
    }
    let (k1, q3) = match dec_str(b, q2) {
        Ok(t) => t,
        Err(e) => { return Err(e); },
    };
    let k_cid = key_bytes("client_id");
    if !bytes_eq(&k1, &k_cid) {
        return Err(DecodeError::Malformed);
    }
    let (cid, q4) = match dec_str(b, q3) {
        Ok(t) => t,
        Err(e) => { return Err(e); },
    };
    let (k2, q5) = match dec_str(b, q4) {
        Ok(t) => t,
        Err(e) => { return Err(e); },
    };
    let k_caps = key_bytes("capabilities");
    if !bytes_eq(&k2, &k_caps) {
        return Err(DecodeError::Malformed);
    }
    let (cn, q6) = match dec_arrhdr(b, q5) {
        Ok(t) => t,
        Err(e) => { return Err(e); },
    };
    let (caps, q7) = match dec_caps(b, q6, cn) {
        Ok(t) => t,
        Err(e) => { return Err(e); },
    };
    Ok((NotificationItem::StandAlone { client_id: cid, capabilities: caps }, q7))
}

fn dec_notif_item(b: &Vec<u8>, p: usize) -> (r: Result<(NotificationItem, usize), DecodeError>)
    ensures
        (match r {
            Ok((it, q)) => s_dec_notif_item(b@, p as int) == Ok::<(ItemModel, int), DecodeError>((
                item_model(it),
                q as int,
            )),
            Err(e) => s_dec_notif_item(b@, p as int) == Err::<(ItemModel, int), DecodeError>(e),
        }),
{
    proof {
        reveal_strlit("CanYouAnswer");
        reveal_strlit("Requested");
        reveal_strlit("StandAlone");
        assert(is_ascii("CanYouAnswer"));
        assert(is_ascii("Requested"));
        assert(is_ascii("StandAlone"));
    }
    let (n, q) = match dec_maphdr(b, p) {
        Ok(t) => t,
        Err(e) => { return Err(e); },
    };
    if n != 1 {
        return Err(DecodeError::Malformed);
    }
    let (k, q1) = match dec_str(b, q) {
        Ok(t) => t,
        Err(e) => { return Err(e); },
    };
    let k_cya = key_bytes("CanYouAnswer");
    let k_req = key_bytes("Requested");
    let k_sa = key_bytes("StandAlone");
    if bytes_eq(&k, &k_cya) {
        dec_item_cya(b, q1)
    } else if bytes_eq(&k, &k_req) {
        dec_item_req(b, q1)
    } else if bytes_eq(&k, &k_sa) {
        dec_item_sa(b, q1)
    } else {
        Err(DecodeError::Malformed)
    }
}

fn dec_notif_items(b: &Vec<u8>, p: usize, n: usize) -> (r: Result<
    (Vec<NotificationItem>, usize),
    DecodeError,
>)
    ensures
        (match r {
            Ok((items, q)) => s_dec_notif_items(b@, p as int, n as nat) == Ok::<
                (Seq<ItemModel>, int),
                DecodeError,
            >((items_model(items@), q as int)),
            Err(e) => s_dec_notif_items(b@, p as int, n as nat) == Err::<
                (Seq<ItemModel>, int),
                DecodeError,
            >(e),
        }),
{
    let mut acc: Vec<NotificationItem> = Vec::new();
    let mut cur = p;
    let mut i: usize = 0;
    proof {
        assert(items_model(acc@) + Seq::<ItemModel>::empty() =~= items_model(acc@));
    }
    while i < n
        invariant
            i <= n,
            (match s_dec_notif_items(b@, cur as int, (n - i) as nat) {
                Ok((rest, q)) => s_dec_notif_items(b@, p as int, n as nat) == Ok::<
                    (Seq<ItemModel>, int),
                    DecodeError,
                >((items_model(acc@) + rest, q)),
                Err(e) => s_dec_notif_items(b@, p as int, n as nat) == Err::<
                    (Seq<ItemModel>, int),
                    DecodeError,
                >(e),
            }),
        decreases n - i,
    {
        let ghost k = (n - i) as nat;
        match dec_notif_item(b, cur) {
            Ok((it, q)) => {
                proof {
                    assert(items_model(acc@.push(it)) =~= items_model(acc@) + seq![
                        item_model(it),
                    ]);
                    if let Ok((rest, r2)) = s_dec_notif_items(b@, q as int, (k - 1) as nat) {
                        assert((items_model(acc@) + (seq![item_model(it)] + rest)) =~= (
                        items_model(acc@) + seq![item_model(it)]) + rest);
                    }
                }
                acc.push(it);
                cur = q;
                i += 1;
            },
            Err(e) => {
                return Err(e);
            },
        }
    }
    proof {
        assert(items_model(acc@) + Seq::<ItemModel>::empty() =~= items_model(acc@));
    }
    Ok((acc, cur))
}

/// Decodes a batched notification.
pub fn decode_notification(b: &Vec<u8>) -> (r: Result<MsgNotification, DecodeError>)
    ensures
        (match r {
            Ok(m) => s_dec_notification(b@, 0) matches Ok(t) && t.0 == (
                m.skill_id@,
                items_model(m.data@),
            ),
            Err(e) => s_dec_notification(b@, 0) == Err::<
                ((Seq<u8>, Seq<ItemModel>), int),
                DecodeError,
            >(e),
        }),
{
    proof {
        reveal_strlit("skill_id");
        reveal_strlit("data");
        assert(is_ascii("skill_id"));
        assert(is_ascii("data"));
    }
    let (n, q) = match dec_maphdr(b, 0) {
        Ok(t) => t,
        Err(e) => { return Err(e); },
    };
    if n != 2 {
        return Err(DecodeError::Malformed);
    }
    let (k1, q1) = match dec_str(b, q) {
        Ok(t) => t,
        Err(e) => { return Err(e); },
    };
    let k_sid = key_bytes("skill_id");
    if !bytes_eq(&k1, &k_sid) {
        return Err(DecodeError::Malformed);
    }
    let (sid, q2) = match dec_str(b, q1) {
        Ok(t) => t,
        Err(e) => { return Err(e); },
    };
    let (k2, q3) = match dec_str(b, q2) {
        Ok(t) => t,
        Err(e) => { return Err(e); },
    };
    let k_data = key_bytes("data");
    if !bytes_eq(&k2, &k_data) {
        return Err(DecodeError::Malformed);
    }
    let (n2, q4) = match dec_arrhdr(b, q3) {
        Ok(t) => t,
        Err(e) => { return Err(e); },
    };
    let (items, q5) = match dec_notif_items(b, q4, n2) {
        Ok(t) => t,
        Err(e) => { return Err(e); },
    };
    Ok(MsgNotification { skill_id: sid, data: items })
}

}

verus! {

fn enc_caps(out: &mut Vec<u8>, caps: &Vec<Vec<u8>>)
    requires
        wf_caps(caps_model(caps@)),
    ensures
        final(out)@ == old(out)@ + s_enc_caps(caps_model(caps@)),
{
    let ghost cm = caps_model(caps@);
    enc_arrhdr(out, caps.len());
    let ghost pfx = out@;
    let mut i: usize = 0;
    while i < caps.len()
        invariant
            i <= caps@.len(),
            cm == caps_model(caps@),
            wf_caps(cm),
            out@ == pfx + s_enc_caps_upto(cm, i as int),
        decreases caps@.len() - i,
    {
        proof {
            assert(cm[i as int] == caps@[i as int]@);
        }
        enc_bin(out, &caps[i]);
        proof {
            assert(out@ =~= pfx + s_enc_caps_upto(cm, i + 1));
        }
        i += 1;
    }
    proof {
        lemma_caps_split(cm, cm.len() as int);
        assert(out@ =~= old(out)@ + s_enc_caps(cm));
    }
}

#[verifier::spinoff_prover]
fn enc_notif_item(out: &mut Vec<u8>, it: &NotificationItem)
    requires
        wf_item(item_model(*it)),
    ensures
        final(out)@ == old(out)@ + s_enc_notif_item(item_model(*it)),
{
    proof {
        reveal_strlit("CanYouAnswer");
        reveal_strlit("Requested");
        reveal_strlit("StandAlone");
        reveal_strlit("request_id");
        reveal_strlit("confidence");
        reveal_strlit("capabilities");
        reveal_strlit("client_id");
        assert(is_ascii("CanYouAnswer"));
        assert(is_ascii("Requested"));
        assert(is_ascii("StandAlone"));
        assert(is_ascii("request_id"));
        assert(is_ascii("confidence"));
        assert(is_ascii("capabilities"));
        assert(is_ascii("client_id"));
    }
    match it {
        NotificationItem::CanYouAnswer { request_id, confidence } => {
            enc_maphdr(out, 1);
            let k = key_bytes("CanYouAnswer");
            enc_str(out, &k);
            enc_maphdr(out, 2);
            let k1 = key_bytes("request_id");
            enc_str(out, &k1);
            enc_uint(out, *request_id);
            let k2 = key_bytes("confidence");
            enc_str(out, &k2);
            enc_f32(out, *confidence);
            proof {
                assert(out@ =~= old(out)@ + s_enc_notif_item(item_model(*it)));
            }
        },
        NotificationItem::Requested { request_id, capabilities } => {
            enc_maphdr(out, 1);
            let k = key_bytes("Requested");
            enc_str(out, &k);
            enc_maphdr(out, 2);
            let k1 = key_bytes("request_id");
            enc_str(out, &k1);
            enc_uint(out, *request_id);
            let k2 = key_bytes("capabilities");
            enc_str(out, &k2);
            enc_caps(out, capabilities);
            proof {
                assert(out@ =~= old(out)@ + s_enc_notif_item(item_model(*it)));
            }
        },
        NotificationItem::StandAlone { client_id, capabilities } => {
            enc_maphdr(out, 1);
            let k = key_bytes("StandAlone");
            enc_str(out, &k);
            enc_maphdr(out, 2);
            let k1 = key_bytes("client_id");
            enc_str(out, &k1);
            enc_str(out, client_id);
            let k2 = key_bytes("capabilities");
            enc_str(out, &k2);
            enc_caps(out, capabilities);
            proof {
                assert(out@ =~= old(out)@ + s_enc_notif_item(item_model(*it)));
            }
        },
    }
}

/// Encodes a batched notification.
pub fn encode_notification(m: &MsgNotification) -> (r: Vec<u8>)
    requires
        wf_notification(m.skill_id@, items_model(m.data@)),
    ensures
        r@ == s_enc_notification(m.skill_id@, items_model(m.data@)),
{
    proof {
        reveal_strlit("skill_id");
        reveal_strlit("data");
        assert(is_ascii("skill_id"));
        assert(is_ascii("data"));
    }
    let ghost im = items_model(m.data@);
    let mut out: Vec<u8> = Vec::new();
    enc_maphdr(&mut out, 2);
    let k1 = key_bytes("skill_id");
    enc_str(&mut out, &k1);
    enc_str(&mut out, &m.skill_id);
    let k2 = key_bytes("data");
    enc_str(&mut out, &k2);
    enc_arrhdr(&mut out, m.data.len());
    let ghost pfx = out@;
    let mut i: usize = 0;
    while i < m.data.len()
        invariant
            i <= m.data@.len(),
            im == items_model(m.data@),
            wf_notification(m.skill_id@, im),
            out@ == pfx + s_enc_notif_items_upto(im, i as int),
        decreases m.data@.len() - i,
    {
        proof {
            assert(im[i as int] == item_model(m.data@[i as int]));
        }
        enc_notif_item(&mut out, &m.data[i]);
        proof {
            assert(out@ =~= pfx + s_enc_notif_items_upto(im, i + 1));
        }
        i += 1;
    }
    proof {
        lemma_notif_items_split(im, im.len() as int);
        assert(out@ =~= s_enc_notification(m.skill_id@, im));
    }
    out
}

}

verus! {

pub proof fn lemma_rt_caps(b: Seq<u8>, p: int, c: Seq<Seq<u8>>, i: int)
    requires
        0 <= p,
        0 <= i <= c.len(),
        wf_caps(c),
        p + s_enc_caps_from(c, i).len() <= b.len(),
        b.subrange(p, p + s_enc_caps_from(c, i).len()) == s_enc_caps_from(c, i),
    ensures
        s_dec_caps(b, p, (c.len() - i) as nat) == Ok::<(Seq<Seq<u8>>, int), DecodeError>((
            c.skip(i),
            p + s_enc_caps_from(c, i).len(),
        )),
    decreases c.len() - i,
{
    let e = s_enc_caps_from(c, i);
    if i == c.len() {
        assert(c.skip(i) =~= Seq::<Seq<u8>>::empty());
    } else {
        let s0 = s_enc_bin(c[i]);
        let s1 = s_enc_caps_from(c, i + 1);
        assert(e == s0 + s1);
        lemma_subrange_shift(b, p, 0, s0.len() as int, e);
        assert(e.subrange(0, s0.len() as int) =~= s0);
        lemma_rt_bin(b, p, c[i]);
        lemma_subrange_shift(b, p, s0.len() as int, e.len() as int, e);
        assert(e.subrange(s0.len() as int, e.len() as int) =~= s1);
        lemma_rt_caps(b, p + s0.len(), c, i + 1);
        assert(seq![c[i]] + c.skip(i + 1) =~= c.skip(i));
    }
}

#[verifier::spinoff_prover]
#[verifier::rlimit(60)]
pub proof fn lemma_rt_notif_item(b: Seq<u8>, p: int, it: ItemModel)
    requires
        0 <= p,
        wf_item(it),
        p + s_enc_notif_item(it).len() <= b.len(),
        b.subrange(p, p + s_enc_notif_item(it).len()) == s_enc_notif_item(it),
    ensures
        s_dec_notif_item(b, p) == Ok::<(ItemModel, int), DecodeError>((
            it,
            p + s_enc_notif_item(it).len(),
        )),
{
    reveal_strlit("CanYouAnswer");
    reveal_strlit("Requested");
    reveal_strlit("StandAlone");
    reveal_strlit("request_id");
    reveal_strlit("confidence");
    reveal_strlit("capabilities");
    reveal_strlit("client_id");
    assert(is_ascii("CanYouAnswer"));
    assert(is_ascii("Requested"));
    assert(is_ascii("StandAlone"));
    assert(is_ascii("request_id"));
    assert(is_ascii("confidence"));
    assert(is_ascii("capabilities"));
    assert(is_ascii("client_id"));
    lemma_ascii_bytes_len("CanYouAnswer");
    lemma_ascii_bytes_len("Requested");
    lemma_ascii_bytes_len("StandAlone");
    lemma_ascii_bytes_len("request_id");
    lemma_ascii_bytes_len("confidence");
    lemma_ascii_bytes_len("capabilities");
    lemma_ascii_bytes_len("client_id");
    let e = s_enc_notif_item(it);
    match it {
        ItemModel::CanYouAnswer { request_id, confidence } => {
            let s0 = s_enc_maphdr(1);
            let s1 = s_enc_str("CanYouAnswer".spec_bytes());
            let s2 = s_enc_maphdr(2);
            let s3 = s_enc_str("request_id".spec_bytes());
            let s4 = s_enc_uint(request_id as int);
            let s5 = s_enc_str("confidence".spec_bytes());
            let s6 = s_enc_f32(confidence);
            let p1 = s0.len() as int;
            let p2 = p1 + s1.len() as int;
            let p3 = p2 + s2.len() as int;
            let p4 = p3 + s3.len() as int;
            let p5 = p4 + s4.len() as int;
            let p6 = p5 + s5.len() as int;
            let p7 = p6 + s6.len() as int;
            assert(e =~= s0 + s1 + s2 + s3 + s4 + s5 + s6);
            assert(e.len() == p7);
            lemma_subrange_shift(b, p, 0, p1, e);
            assert(e.subrange(0, p1) =~= s0);
            lemma_rt_maphdr(b, p, 1);
            lemma_subrange_shift(b, p, p1, p2, e);
            assert(e.subrange(p1, p2) =~= s1);
            lemma_rt_str(b, p + p1, "CanYouAnswer".spec_bytes());
            lemma_subrange_shift(b, p, p2, p3, e);
            assert(e.subrange(p2, p3) =~= s2);
            lemma_rt_maphdr(b, p + p2, 2);
            lemma_subrange_shift(b, p, p3, p4, e);
            assert(e.subrange(p3, p4) =~= s3);
            lemma_rt_str(b, p + p3, "request_id".spec_bytes());
            lemma_subrange_shift(b, p, p4, p5, e);
            assert(e.subrange(p4, p5) =~= s4);
            lemma_rt_uint(b, p + p4, request_id);
            lemma_subrange_shift(b, p, p5, p6, e);
            assert(e.subrange(p5, p6) =~= s5);
            lemma_rt_str(b, p + p5, "confidence".spec_bytes());
            lemma_subrange_shift(b, p, p6, p7, e);
            assert(e.subrange(p6, p7) =~= s6);
            lemma_rt_f32(b, p + p6, confidence);
        },
        ItemModel::Requested { request_id, capabilities } => {
            let s0 = s_enc_maphdr(1);
            let s1 = s_enc_str("Requested".spec_bytes());
            let s2 = s_enc_maphdr(2);
            let s3 = s_enc_str("request_id".spec_bytes());
            let s4 = s_enc_uint(request_id as int);
            let s5 = s_enc_str("capabilities".spec_bytes());
            let s6 = s_enc_arrhdr(capabilities.len() as int);
            let s7 = s_enc_caps_from(capabilities, 0);
            let p1 = s0.len() as int;
            let p2 = p1 + s1.len() as int;
            let p3 = p2 + s2.len() as int;
            let p4 = p3 + s3.len() as int;
            let p5 = p4 + s4.len() as int;
            let p6 = p5 + s5.len() as int;
            let p7 = p6 + s6.len() as int;
            let p8 = p7 + s7.len() as int;
            assert(e =~= s0 + s1 + s2 + s3 + s4 + s5 + (s6 + s7));
            assert(e.len() == p8);
            lemma_subrange_shift(b, p, 0, p1, e);
            assert(e.subrange(0, p1) =~= s0);
            lemma_rt_maphdr(b, p, 1);
            lemma_subrange_shift(b, p, p1, p2, e);
            assert(e.subrange(p1, p2) =~= s1);
            lemma_rt_str(b, p + p1, "Requested".spec_bytes());
            assert("Requested".spec_bytes() != "CanYouAnswer".spec_bytes());
            lemma_subrange_shift(b, p, p2, p3, e);
            assert(e.subrange(p2, p3) =~= s2);
            lemma_rt_maphdr(b, p + p2, 2);
            lemma_subrange_shift(b, p, p3, p4, e);
            assert(e.subrange(p3, p4) =~= s3);
            lemma_rt_str(b, p + p3, "request_id".spec_bytes());
            lemma_subrange_shift(b, p, p4, p5, e);
            assert(e.subrange(p4, p5) =~= s4);
            lemma_rt_uint(b, p + p4, request_id);
            lemma_subrange_shift(b, p, p5, p6, e);
            assert(e.subrange(p5, p6) =~= s5);
            lemma_rt_str(b, p + p5, "capabilities".spec_bytes());
            lemma_subrange_shift(b, p, p6, p7, e);
            assert(e.subrange(p6, p7) =~= s6);
            lemma_rt_arrhdr(b, p + p6, capabilities.len() as int);
            lemma_subrange_shift(b, p, p7, p8, e);
            assert(e.subrange(p7, p8) =~= s7);
            lemma_rt_caps(b, p + p7, capabilities, 0);
            assert(capabilities.skip(0) =~= capabilities);
        },
        ItemModel::StandAlone { client_id, capabilities } => {
            let s0 = s_enc_maphdr(1);
            let s1 = s_enc_str("StandAlone".spec_bytes());
            let s2 = s_enc_maphdr(2);
            let s3 = s_enc_str("client_id".spec_bytes());
            let s4 = s_enc_str(client_id);
            let s5 = s_enc_str("capabilities".spec_bytes());
            let s6 = s_enc_arrhdr(capabilities.len() as int);
            let s7 = s_enc_caps_from(capabilities, 0);
            let p1 = s0.len() as int;
            let p2 = p1 + s1.len() as int;
            let p3 = p2 + s2.len() as int;
            let p4 = p3 + s3.len() as int;
            let p5 = p4 + s4.len() as int;
            let p6 = p5 + s5.len() as int;
            let p7 = p6 + s6.len() as int;
            let p8 = p7 + s7.len() as int;
            assert(e =~= s0 + s1 + s2 + s3 + s4 + s5 + (s6 + s7));
            assert(e.len() == p8);
            lemma_subrange_shift(b, p, 0, p1, e);
            assert(e.subrange(0, p1) =~= s0);
            lemma_rt_maphdr(b, p, 1);
            lemma_subrange_shift(b, p, p1, p2, e);
            assert(e.subrange(p1, p2) =~= s1);
            lemma_rt_str(b, p + p1, "StandAlone".spec_bytes());
            assert("StandAlone".spec_bytes() != "CanYouAnswer".spec_bytes());
            assert("StandAlone".spec_bytes() != "Requested".spec_bytes());
            lemma_subrange_shift(b, p, p2, p3, e);
            assert(e.subrange(p2, p3) =~= s2);
            lemma_rt_maphdr(b, p + p2, 2);
            lemma_subrange_shift(b, p, p3, p4, e);
            assert(e.subrange(p3, p4) =~= s3);
            lemma_rt_str(b, p + p3, "client_id".spec_bytes());
            lemma_subrange_shift(b, p, p4, p5, e);
            assert(e.subrange(p4, p5) =~= s4);
            lemma_rt_str(b, p + p4, client_id);
            lemma_subrange_shift(b, p, p5, p6, e);
            assert(e.subrange(p5, p6) =~= s5);
            lemma_rt_str(b, p + p5, "capabilities".spec_bytes());
            lemma_subrange_shift(b, p, p6, p7, e);
            assert(e.subrange(p6, p7) =~= s6);
            lemma_rt_arrhdr(b, p + p6, capabilities.len() as int);
            lemma_subrange_shift(b, p, p7, p8, e);
            assert(e.subrange(p7, p8) =~= s7);
            lemma_rt_caps(b, p + p7, capabilities, 0);
            assert(capabilities.skip(0) =~= capabilities);
        },
    }
}

#[verifier::spinoff_prover]
pub proof fn lemma_rt_notif_items(b: Seq<u8>, p: int, items: Seq<ItemModel>, i: int)
    requires
        0 <= p,
        0 <= i <= items.len(),
        forall|j: int| 0 <= j < items.len() ==> wf_item(#[trigger] items[j]),
        p + s_enc_notif_items_from(items, i).len() <= b.len(),
        b.subrange(p, p + s_enc_notif_items_from(items, i).len()) == s_enc_notif_items_from(
            items,
            i,
        ),
    ensures
        s_dec_notif_items(b, p, (items.len() - i) as nat) == Ok::<
            (Seq<ItemModel>, int),
            DecodeError,
        >((items.skip(i), p + s_enc_notif_items_from(items, i).len())),
    decreases items.len() - i,
{
    let e = s_enc_notif_items_from(items, i);
    if i == items.len() {
        assert(items.skip(i) =~= Seq::<ItemModel>::empty());
    } else {
        let s0 = s_enc_notif_item(items[i]);
        let s1 = s_enc_notif_items_from(items, i + 1);
        assert(e == s0 + s1);
        lemma_subrange_shift(b, p, 0, s0.len() as int, e);
        assert(e.subrange(0, s0.len() as int) =~= s0);
        lemma_rt_notif_item(b, p, items[i]);
        lemma_subrange_shift(b, p, s0.len() as int, e.len() as int, e);
        assert(e.subrange(s0.len() as int, e.len() as int) =~= s1);
        lemma_rt_notif_items(b, p + s0.len(), items, i + 1);
        assert(seq![items[i]] + items.skip(i + 1) =~= items.skip(i));
    }
}

/// The codec round trip: decoding the encoding of any well-formed
/// notification finds the same skill id and the same entries, so a decoded
/// message that is re-encoded decodes to the same value again.
#[verifier::spinoff_prover]
#[verifier::rlimit(60)]
pub proof fn lemma_rt_notification(b: Seq<u8>, p: int, skill_id: Seq<u8>, items: Seq<ItemModel>)
    requires
        0 <= p,
        wf_notification(skill_id, items),
        p + s_enc_notification(skill_id, items).len() <= b.len(),
        b.subrange(p, p + s_enc_notification(skill_id, items).len()) == s_enc_notification(
            skill_id,
            items,
        ),
    ensures
        s_dec_notification(b, p) == Ok::<((Seq<u8>, Seq<ItemModel>), int), DecodeError>((
            (skill_id, items),
            p + s_enc_notification(skill_id, items).len(),
        )),
{
    reveal_strlit("skill_id");
    reveal_strlit("data");
    assert(is_ascii("skill_id"));
    assert(is_ascii("data"));
    lemma_ascii_bytes_len("skill_id");
    lemma_ascii_bytes_len("data");
    let e = s_enc_notification(skill_id, items);
    let s0 = s_enc_maphdr(2);
    let s1 = s_enc_str("skill_id".spec_bytes());
    let s2 = s_enc_str(skill_id);
    let s3 = s_enc_str("data".spec_bytes());
    let s4 = s_enc_arrhdr(items.len() as int);
    let s5 = s_enc_notif_items_from(items, 0);
    let p1 = s0.len() as int;
    let p2 = p1 + s1.len() as int;
    let p3 = p2 + s2.len() as int;
    let p4 = p3 + s3.len() as int;
    let p5 = p4 + s4.len() as int;
    let p6 = p5 + s5.len() as int;
    assert(e =~= s0 + s1 + s2 + s3 + (s4 + s5));
    assert(e.len() == p6);
    lemma_subrange_shift(b, p, 0, p1, e);
    assert(e.subrange(0, p1) =~= s0);
    lemma_rt_maphdr(b, p, 2);
    lemma_subrange_shift(b, p, p1, p2, e);
    assert(e.subrange(p1, p2) =~= s1);
    lemma_rt_str(b, p + p1, "skill_id".spec_bytes());
    lemma_subrange_shift(b, p, p2, p3, e);
    assert(e.subrange(p2, p3) =~= s2);
    lemma_rt_str(b, p + p2, skill_id);
    lemma_subrange_shift(b, p, p3, p4, e);
    assert(e.subrange(p3, p4) =~= s3);
    lemma_rt_str(b, p + p3, "data".spec_bytes());
    lemma_subrange_shift(b, p, p4, p5, e);
    assert(e.subrange(p4, p5) =~= s4);
    lemma_rt_arrhdr(b, p + p4, items.len() as int);
    lemma_subrange_shift(b, p, p5, p6, e);
    assert(e.subrange(p5, p6) =~= s5);
    lemma_rt_notif_items(b, p + p5, items, 0);
    assert(items.skip(0) =~= items);
}

}

verus! {

use crate::msgpack::lemma_be_bound;
use crate::msgpack::lemma_p256_values;

pub proof fn lemma_dec_str_small(b: Seq<u8>, p: int)
    ensures
        (match s_dec_str(b, p) {
            Ok((s, q)) => s.len() < 0x100000000,
            Err(_) => true,
        }),
{
    lemma_p256_values();
    if 0 <= p < b.len() {
        lemma_be_bound(b, p + 1, 1);
        lemma_be_bound(b, p + 1, 2);
        lemma_be_bound(b, p + 1, 4);
    }
}

pub proof fn lemma_dec_bin_small(b: Seq<u8>, p: int)
    ensures
        (match s_dec_bin(b, p) {
            Ok((s, q)) => s.len() < 0x100000000,
            Err(_) => true,
        }),
{
    lemma_p256_values();
    if 0 <= p < b.len() {
        lemma_be_bound(b, p + 1, 1);
        lemma_be_bound(b, p + 1, 2);
        lemma_be_bound(b, p + 1, 4);
    }
}

pub proof fn lemma_dec_arrhdr_small(b: Seq<u8>, p: int)
    ensures
        (match s_dec_arrhdr(b, p) {
            Ok((n, q)) => 0 <= n < 0x100000000,
            Err(_) => true,
        }),
{
    lemma_p256_values();
    if 0 <= p < b.len() {
        lemma_be_bound(b, p + 1, 2);
        lemma_be_bound(b, p + 1, 4);
    }
}

pub proof fn lemma_dec_caps_wf(b: Seq<u8>, p: int, n: nat)
    ensures
        (match s_dec_caps(b, p, n) {
            Ok((c, q)) => c.len() == n && (forall|j: int|
                0 <= j < c.len() ==> (#[trigger] c[j]).len() < 0x100000000),
            Err(_) => true,
        }),
    decreases n,
{
    lemma_p256_values();
    if n > 0 {
        lemma_dec_bin_small(b, p);
        if let Ok((v, q)) = s_dec_bin(b, p) {
            lemma_dec_caps_wf(b, q, (n - 1) as nat);
            if let Ok((rest, r)) = s_dec_caps(b, q, (n - 1) as nat) {
                let c = seq![v] + rest;
                assert forall|j: int| 0 <= j < c.len() implies (#[trigger] c[j]).len()
                    < 0x100000000 by {
                    if j == 0 {
                        assert(c[j] == v);
                    } else {
                        assert(c[j] == rest[j - 1]);
                    }
                };
            }
        }
    }
}

pub proof fn lemma_dec_item_wf(b: Seq<u8>, p: int)
    ensures
        (match s_dec_notif_item(b, p) {
            Ok((it, q)) => wf_item(it),
            Err(_) => true,
        }),
{
    lemma_p256_values();
    if let Ok((n, q)) = s_dec_maphdr(b, p) {
        if n == 1 {
            if let Ok((k, q1)) = s_dec_str(b, q) {
                if k == "CanYouAnswer".spec_bytes() {
                } else if k == "Requested".spec_bytes() {
                    if let Ok((n2, q2)) = s_dec_maphdr(b, q1) {
                        if n2 == 2 {
                            if let Ok((k1, q3)) = s_dec_str(b, q2) {
                                if k1 == "request_id".spec_bytes() {
                                    if let Ok((rid, q4)) = s_dec_uint(b, q3) {
                                        if let Ok((k2, q5)) = s_dec_str(b, q4) {
                                            if k2 == "capabilities".spec_bytes() {
                                                if let Ok((cn, q6)) = s_dec_arrhdr(b, q5) {
                                                    lemma_dec_arrhdr_small(b, q5);
                                                    lemma_dec_caps_wf(b, q6, cn as nat);
                                                }
                                            }
                                        }
                                    }
                                }
                            }
                        }
                    }
                } else if k == "StandAlone".spec_bytes() {
                    if let Ok((n2, q2)) = s_dec_maphdr(b, q1) {
                        if n2 == 2 {
                            if let Ok((k1, q3)) = s_dec_str(b, q2) {
                                if k1 == "client_id".spec_bytes() {
                                    lemma_dec_str_small(b, q3);
                                    if let Ok((cid, q4)) = s_dec_str(b, q3) {
                                        if let Ok((k2, q5)) = s_dec_str(b, q4) {
                                            if k2 == "capabilities".spec_bytes() {
                                                if let Ok((cn, q6)) = s_dec_arrhdr(b, q5) {
                                                    lemma_dec_arrhdr_small(b, q5);
                                                    lemma_dec_caps_wf(b, q6, cn as nat);
                                                }
                                            }
                                        }
                                    }
                                }
                            }
                        }
                    }
                }
            }
        }
    }
}

pub proof fn lemma_dec_items_wf(b: Seq<u8>, p: int, n: nat)
    ensures
        (match s_dec_notif_items(b, p, n) {
            Ok((items, q)) => items.len() == n && (forall|j: int|
                0 <= j < items.len() ==> wf_item(#[trigger] items[j])),
            Err(_) => true,
        }),
    decreases n,
{
    if n > 0 {
        lemma_dec_item_wf(b, p);
        if let Ok((it, q)) = s_dec_notif_item(b, p) {
            lemma_dec_items_wf(b, q, (n - 1) as nat);
        }
    }
}

/// Whatever decodes as a notification is within the encoder's bounds.
pub proof fn lemma_dec_notification_wf(b: Seq<u8>, p: int)
    ensures
        (match s_dec_notification(b, p) {
            Ok((t, q)) => wf_notification(t.0, t.1),
            Err(_) => true,
        }),
{
    lemma_p256_values();
    if let Ok((n, q)) = s_dec_maphdr(b, p) {
        if n == 2 {
            if let Ok((k1, q1)) = s_dec_str(b, q) {
                if k1 == "skill_id".spec_bytes() {
                    lemma_dec_str_small(b, q1);
                    if let Ok((sid, q2)) = s_dec_str(b, q1) {
                        if let Ok((k2, q3)) = s_dec_str(b, q2) {
                            if k2 == "data".spec_bytes() {
                                if let Ok((n2, q4)) = s_dec_arrhdr(b, q3) {
                                    lemma_dec_arrhdr_small(b, q3);
                                    lemma_dec_items_wf(b, q4, n2 as nat);
                                }
                            }
                        }
                    }
                }
            }
        }
    }
}

/// Decoding a legal notification and re-encoding it yields bytes that decode
/// to the same skill id and the same entries: the codec round trip.
pub proof fn lemma_notification_reencode(b: Seq<u8>, skill_id: Seq<u8>, items: Seq<ItemModel>)
    requires
        s_dec_notification(b, 0) matches Ok(t) && t.0 == (skill_id, items),
    ensures
        s_dec_notification(s_enc_notification(skill_id, items), 0) == Ok::<
            ((Seq<u8>, Seq<ItemModel>), int),
            DecodeError,
        >(((skill_id, items), s_enc_notification(skill_id, items).len() as int)),
{
    lemma_dec_notification_wf(b, 0);
    let e = s_enc_notification(skill_id, items);
    assert(e.subrange(0, e.len() as int) =~= e);
    lemma_rt_notification(e, 0, skill_id, items);
}

}
