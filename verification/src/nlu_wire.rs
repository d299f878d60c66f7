//! The register-intents message on the wire: the declaration bundles of §6,
//! field for field, over the encoding primitives.  Each structure is a map
//! with named fields; lists are arrays.  As everywhere in the codec,
//! encoders state the exact byte sequence and decoders the exact parse, and
//! round-trip lemmas tie the two together.

use vstd::prelude::*;
use vstd::string::StringSliceAdditionalSpecFns;
use vstd::string::is_ascii;
use crate::messages::DecodeError;
use crate::nlu::NluData;
use crate::nlu::NluDataEntity;
use crate::nlu::NluDataIntent;
use crate::nlu::NluDataIntentUtterance;
use crate::nlu::NluDataSlot;
use crate::msgpack::s_enc_maphdr;
use crate::msgpack::s_dec_maphdr;
use crate::msgpack::s_enc_arrhdr;
use crate::msgpack::s_dec_arrhdr;
use crate::msgpack::s_enc_str;
use crate::msgpack::s_dec_str;
use crate::msgpack::s_enc_bool;
use crate::msgpack::s_dec_bool;
use crate::msgpack::enc_maphdr;
use crate::msgpack::dec_maphdr;
use crate::msgpack::enc_arrhdr;
use crate::msgpack::dec_arrhdr;
use crate::msgpack::enc_str;
use crate::msgpack::dec_str;
use crate::msgpack::enc_bool;
use crate::msgpack::dec_bool;
use crate::wire::bytes_eq;
use crate::wire::key_bytes;
use crate::wire::caps_model;
use crate::wire::wf_caps;

verus! {

// ---------------------------------------------------------------------------
// The mathematical shape of the declaration bundles
// ---------------------------------------------------------------------------

pub struct SlotModel {
    pub name: Seq<u8>,
    pub entity: Seq<u8>,
}

pub struct IntentModel {
    pub name: Seq<u8>,
    pub utterances: Seq<Seq<u8>>,
    pub slots: Seq<SlotModel>,
}

pub struct EntityModel {
    pub name: Seq<u8>,
    pub strict: bool,
    pub data: Seq<Seq<u8>>,
}

pub struct NluModel {
    pub language: Seq<u8>,
    pub intents: Seq<IntentModel>,
    pub entities: Seq<EntityModel>,
}

pub open spec fn slot_model(s: NluDataSlot) -> SlotModel {
    SlotModel { name: s.name@, entity: s.entity@ }
}

pub open spec fn utterances_model(u: Seq<NluDataIntentUtterance>) -> Seq<Seq<u8>> {
    u.map_values(|x: NluDataIntentUtterance| x.text@)
}

pub open spec fn intent_model(i: NluDataIntent) -> IntentModel {
    IntentModel {
        name: i.name@,
        utterances: utterances_model(i.utterances@),
        slots: i.slots@.map_values(|s: NluDataSlot| slot_model(s)),
    }
}

pub open spec fn entity_model(e: NluDataEntity) -> EntityModel {
    EntityModel { name: e.name@, strict: e.strict, data: caps_model(e.data@) }
}

pub open spec fn nlu_model(d: NluData) -> NluModel {
    NluModel {
        language: d.language@,
        intents: d.intents@.map_values(|i: NluDataIntent| intent_model(i)),
        entities: d.entities@.map_values(|e: NluDataEntity| entity_model(e)),
    }
}

pub open spec fn nlus_model(ds: Seq<NluData>) -> Seq<NluModel> {
    ds.map_values(|d: NluData| nlu_model(d))
}

pub open spec fn wf_slot(s: SlotModel) -> bool {
    s.name.len() < 0x100000000 && s.entity.len() < 0x100000000
}

pub open spec fn wf_intent(i: IntentModel) -> bool {
    &&& i.name.len() < 0x100000000
    &&& wf_caps(i.utterances)
    &&& i.slots.len() < 0x100000000
    &&& (forall|j: int| 0 <= j < i.slots.len() ==> wf_slot(#[trigger] i.slots[j]))
}

pub open spec fn wf_entity(e: EntityModel) -> bool {
    e.name.len() < 0x100000000 && wf_caps(e.data)
}

pub open spec fn wf_nlu(d: NluModel) -> bool {
    &&& d.language.len() < 0x100000000
    &&& d.intents.len() < 0x100000000
    &&& (forall|j: int| 0 <= j < d.intents.len() ==> wf_intent(#[trigger] d.intents[j]))
    &&& d.entities.len() < 0x100000000
    &&& (forall|j: int| 0 <= j < d.entities.len() ==> wf_entity(#[trigger] d.entities[j]))
}

/// The bounds under which a register-intents message can be written at all.
pub open spec fn wf_register_intents(skill_id: Seq<u8>, ds: Seq<NluModel>) -> bool {
    &&& skill_id.len() < 0x100000000
    &&& ds.len() < 0x100000000
    &&& (forall|j: int| 0 <= j < ds.len() ==> wf_nlu(#[trigger] ds[j]))
}

// ---------------------------------------------------------------------------
// Spec encoders
// ---------------------------------------------------------------------------

/// One example utterance: a one-field map holding its text.
pub open spec fn s_enc_utt(t: Seq<u8>) -> Seq<u8> {
    s_enc_maphdr(1) + s_enc_str("text".spec_bytes()) + s_enc_str(t)
}

pub open spec fn s_enc_utts_from(ts: Seq<Seq<u8>>, i: int) -> Seq<u8>
    decreases ts.len() - i,
{
    if i < 0 || i >= ts.len() {
        Seq::empty()
    } else {
        s_enc_utt(ts[i]) + s_enc_utts_from(ts, i + 1)
    }
}

/// One slot binding.
pub open spec fn s_enc_slot(s: SlotModel) -> Seq<u8> {
    s_enc_maphdr(2) + s_enc_str("name".spec_bytes()) + s_enc_str(s.name) + s_enc_str(
        "entity".spec_bytes(),
    ) + s_enc_str(s.entity)
}

pub open spec fn s_enc_slots_from(ss: Seq<SlotModel>, i: int) -> Seq<u8>
    decreases ss.len() - i,
{
    if i < 0 || i >= ss.len() {
        Seq::empty()
    } else {
        s_enc_slot(ss[i]) + s_enc_slots_from(ss, i + 1)
    }
}

/// An array of plain strings.
pub open spec fn s_enc_strs_from(cs: Seq<Seq<u8>>, i: int) -> Seq<u8>
    decreases cs.len() - i,
{
    if i < 0 || i >= cs.len() {
        Seq::empty()
    } else {
        s_enc_str(cs[i]) + s_enc_strs_from(cs, i + 1)
    }
}

/// One intent: name, utterances, slots.
#[verifier::opaque]
pub open spec fn s_enc_intent(m: IntentModel) -> Seq<u8> {
    s_enc_maphdr(3) + s_enc_str("name".spec_bytes()) + s_enc_str(m.name) + s_enc_str(
        "utterances".spec_bytes(),
    ) + s_enc_arrhdr(m.utterances.len() as int) + s_enc_utts_from(m.utterances, 0) + s_enc_str(
        "slots".spec_bytes(),
    ) + s_enc_arrhdr(m.slots.len() as int) + s_enc_slots_from(m.slots, 0)
}

pub open spec fn s_enc_intents_from(ms: Seq<IntentModel>, i: int) -> Seq<u8>
    decreases ms.len() - i,
{
    if i < 0 || i >= ms.len() {
        Seq::empty()
    } else {
        s_enc_intent(ms[i]) + s_enc_intents_from(ms, i + 1)
    }
}

/// One entity: name, strictness, data.
#[verifier::opaque]
pub open spec fn s_enc_entity(m: EntityModel) -> Seq<u8> {
    s_enc_maphdr(3) + s_enc_str("name".spec_bytes()) + s_enc_str(m.name) + s_enc_str(
        "strict".spec_bytes(),
    ) + s_enc_bool(m.strict) + s_enc_str("data".spec_bytes()) + s_enc_arrhdr(m.data.len() as int)
        + s_enc_strs_from(m.data, 0)
}

pub open spec fn s_enc_entities_from(ms: Seq<EntityModel>, i: int) -> Seq<u8>
    decreases ms.len() - i,
{
    if i < 0 || i >= ms.len() {
        Seq::empty()
    } else {
        s_enc_entity(ms[i]) + s_enc_entities_from(ms, i + 1)
    }
}

/// The bundle from its `intents` key on.
#[verifier::opaque]
pub open spec fn s_enc_nlu_tail(m: NluModel) -> Seq<u8> {
    s_enc_str("intents".spec_bytes()) + s_enc_arrhdr(m.intents.len() as int) + s_enc_intents_from(
        m.intents,
        0,
    ) + s_enc_str("entities".spec_bytes()) + s_enc_arrhdr(m.entities.len() as int)
        + s_enc_entities_from(m.entities, 0)
}

/// One language's bundle.
pub open spec fn s_enc_nlu(m: NluModel) -> Seq<u8> {
    s_enc_maphdr(3) + s_enc_str("language".spec_bytes()) + s_enc_str(m.language) + s_enc_nlu_tail(
        m,
    )
}

pub open spec fn s_enc_nlus_from(ms: Seq<NluModel>, i: int) -> Seq<u8>
    decreases ms.len() - i,
{
    if i < 0 || i >= ms.len() {
        Seq::empty()
    } else {
        s_enc_nlu(ms[i]) + s_enc_nlus_from(ms, i + 1)
    }
}

/// The whole message: the declaring skill and its bundles.
pub open spec fn s_enc_register_intents(skill_id: Seq<u8>, ds: Seq<NluModel>) -> Seq<u8> {
    s_enc_maphdr(2) + s_enc_str("skill_id".spec_bytes()) + s_enc_str(skill_id) + s_enc_str(
        "nlu_data".spec_bytes(),
    ) + s_enc_arrhdr(ds.len() as int) + s_enc_nlus_from(ds, 0)
}

// ---------------------------------------------------------------------------
// Spec decoders
// ---------------------------------------------------------------------------

pub open spec fn s_dec_utt(b: Seq<u8>, p: int) -> Result<(Seq<u8>, int), DecodeError> {
    match s_dec_maphdr(b, p) {
        Err(e) => Err(e),
        Ok((n, q)) => if n != 1 {
            Err(DecodeError::Malformed)
        } else {
            match s_dec_str(b, q) {
                Err(e) => Err(e),
                Ok((k, q1)) => if k != "text".spec_bytes() {
                    Err(DecodeError::Malformed)
                } else {
                    s_dec_str(b, q1)
                },
            }
        },
    }
}

pub open spec fn s_dec_utts(b: Seq<u8>, p: int, n: nat) -> Result<(Seq<Seq<u8>>, int), DecodeError>
    decreases n,
{
    if n == 0 {
        Ok((Seq::empty(), p))
    } else {
        match s_dec_utt(b, p) {
            Err(e) => Err(e),
            Ok((t, q)) => match s_dec_utts(b, q, (n - 1) as nat) {
                Err(e) => Err(e),
                Ok((rest, r)) => Ok((seq![t] + rest, r)),
            },
        }
    }
}

pub open spec fn s_dec_slot(b: Seq<u8>, p: int) -> Result<(SlotModel, int), DecodeError> {
    match s_dec_maphdr(b, p) {
        Err(e) => Err(e),
        Ok((n, q)) => if n != 2 {
            Err(DecodeError::Malformed)
        } else {
            match s_dec_str(b, q) {
                Err(e) => Err(e),
                Ok((k1, q1)) => if k1 != "name".spec_bytes() {
                    Err(DecodeError::Malformed)
                } else {
                    match s_dec_str(b, q1) {
                        Err(e) => Err(e),
                        Ok((name, q2)) => match s_dec_str(b, q2) {
                            Err(e) => Err(e),
                            Ok((k2, q3)) => if k2 != "entity".spec_bytes() {
                                Err(DecodeError::Malformed)
                            } else {
                                match s_dec_str(b, q3) {
                                    Err(e) => Err(e),
                                    Ok((entity, q4)) => Ok((SlotModel { name, entity }, q4)),
                                }
                            },
                        },
                    }
                },
            }
        },
    }
}

pub open spec fn s_dec_slots(b: Seq<u8>, p: int, n: nat) -> Result<
    (Seq<SlotModel>, int),
    DecodeError,
>
    decreases n,
{
    if n == 0 {
        Ok((Seq::empty(), p))
    } else {
        match s_dec_slot(b, p) {
            Err(e) => Err(e),
            Ok((t, q)) => match s_dec_slots(b, q, (n - 1) as nat) {
                Err(e) => Err(e),
                Ok((rest, r)) => Ok((seq![t] + rest, r)),
            },
        }
    }
}

pub open spec fn s_dec_strs(b: Seq<u8>, p: int, n: nat) -> Result<(Seq<Seq<u8>>, int), DecodeError>
    decreases n,
{
    if n == 0 {
        Ok((Seq::empty(), p))
    } else {
        match s_dec_str(b, p) {
            Err(e) => Err(e),
            Ok((t, q)) => match s_dec_strs(b, q, (n - 1) as nat) {
                Err(e) => Err(e),
                Ok((rest, r)) => Ok((seq![t] + rest, r)),
            },
        }
    }
}

pub open spec fn s_dec_intent(b: Seq<u8>, p: int) -> Result<(IntentModel, int), DecodeError> {
    match s_dec_maphdr(b, p) {
        Err(e) => Err(e),
        Ok((n, q)) => if n != 3 {
            Err(DecodeError::Malformed)
        } else {
            match s_dec_str(b, q) {
                Err(e) => Err(e),
                Ok((k1, q1)) => if k1 != "name".spec_bytes() {
                    Err(DecodeError::Malformed)
                } else {
                    match s_dec_str(b, q1) {
                        Err(e) => Err(e),
                        Ok((name, q2)) => match s_dec_str(b, q2) {
                            Err(e) => Err(e),
                            Ok((k2, q3)) => if k2 != "utterances".spec_bytes() {
                                Err(DecodeError::Malformed)
                            } else {
                                match s_dec_arrhdr(b, q3) {
                                    Err(e) => Err(e),
                                    Ok((un, q4)) => match s_dec_utts(b, q4, un as nat) {
                                        Err(e) => Err(e),
                                        Ok((utterances, q5)) => match s_dec_str(b, q5) {
                                            Err(e) => Err(e),
                                            Ok((k3, q6)) => if k3 != "slots".spec_bytes() {
                                                Err(DecodeError::Malformed)
                                            } else {
                                                match s_dec_arrhdr(b, q6) {
                                                    Err(e) => Err(e),
                                                    Ok((sn, q7)) => match s_dec_slots(
                                                        b,
                                                        q7,
                                                        sn as nat,
                                                    ) {
                                                        Err(e) => Err(e),
                                                        Ok((slots, q8)) => Ok((
                                                            IntentModel {
                                                                name,
                                                                utterances,
                                                                slots,
                                                            },
                                                            q8,
                                                        )),
                                                    },
                                                }
                                            },
                                        },
                                    },
                                }
                            },
                        },
                    }
                },
            }
        },
    }
}

pub open spec fn s_dec_intents(b: Seq<u8>, p: int, n: nat) -> Result<
    (Seq<IntentModel>, int),
    DecodeError,
>
    decreases n,
{
    if n == 0 {
        Ok((Seq::empty(), p))
    } else {
        match s_dec_intent(b, p) {
            Err(e) => Err(e),
            Ok((t, q)) => match s_dec_intents(b, q, (n - 1) as nat) {
                Err(e) => Err(e),
                Ok((rest, r)) => Ok((seq![t] + rest, r)),
            },
        }
    }
}

pub open spec fn s_dec_entity(b: Seq<u8>, p: int) -> Result<(EntityModel, int), DecodeError> {
    match s_dec_maphdr(b, p) {
        Err(e) => Err(e),
        Ok((n, q)) => if n != 3 {
            Err(DecodeError::Malformed)
        } else {
            match s_dec_str(b, q) {
                Err(e) => Err(e),
                Ok((k1, q1)) => if k1 != "name".spec_bytes() {
                    Err(DecodeError::Malformed)
                } else {
                    match s_dec_str(b, q1) {
                        Err(e) => Err(e),
                        Ok((name, q2)) => match s_dec_str(b, q2) {
                            Err(e) => Err(e),
                            Ok((k2, q3)) => if k2 != "strict".spec_bytes() {
                                Err(DecodeError::Malformed)
                            } else {
                                match s_dec_bool(b, q3) {
                                    Err(e) => Err(e),
                                    Ok((strict, q4)) => match s_dec_str(b, q4) {
                                        Err(e) => Err(e),
                                        Ok((k3, q5)) => if k3 != "data".spec_bytes() {
                                            Err(DecodeError::Malformed)
                                        } else {
                                            match s_dec_arrhdr(b, q5) {
                                                Err(e) => Err(e),
                                                Ok((dn, q6)) => match s_dec_strs(
                                                    b,
                                                    q6,
                                                    dn as nat,
                                                ) {
                                                    Err(e) => Err(e),
                                                    Ok((data, q7)) => Ok((
                                                        EntityModel { name, strict, data },
                                                        q7,
                                                    )),
                                                },
                                            }
                                        },
                                    },
                                }
                            },
                        },
                    }
                },
            }
        },
    }
}

pub open spec fn s_dec_entities(b: Seq<u8>, p: int, n: nat) -> Result<
    (Seq<EntityModel>, int),
    DecodeError,
>
    decreases n,
{
    if n == 0 {
        Ok((Seq::empty(), p))
    } else {
        match s_dec_entity(b, p) {
            Err(e) => Err(e),
            Ok((t, q)) => match s_dec_entities(b, q, (n - 1) as nat) {
                Err(e) => Err(e),
                Ok((rest, r)) => Ok((seq![t] + rest, r)),
            },
        }
    }
}

#[verifier::opaque]
pub open spec fn s_dec_nlu_tail2(
    b: Seq<u8>,
    p: int,
    language: Seq<u8>,
    intents: Seq<IntentModel>,
) -> Result<(NluModel, int), DecodeError> {
    match s_dec_str(b, p) {
        Err(e) => Err(e),
        Ok((k3, q6)) => if k3 != "entities".spec_bytes() {
            Err(DecodeError::Malformed)
        } else {
            match s_dec_arrhdr(b, q6) {
                Err(e) => Err(e),
                Ok((en, q7)) => match s_dec_entities(b, q7, en as nat) {
                    Err(e) => Err(e),
                    Ok((entities, q8)) => Ok((NluModel { language, intents, entities }, q8)),
                },
            }
        },
    }
}

#[verifier::opaque]
pub open spec fn s_dec_nlu_tail(b: Seq<u8>, p: int, language: Seq<u8>) -> Result<
    (NluModel, int),
    DecodeError,
> {
    match s_dec_str(b, p) {
        Err(e) => Err(e),
        Ok((k2, q3)) => if k2 != "intents".spec_bytes() {
            Err(DecodeError::Malformed)
        } else {
            match s_dec_arrhdr(b, q3) {
                Err(e) => Err(e),
                Ok((inn, q4)) => match s_dec_intents(b, q4, inn as nat) {
                    Err(e) => Err(e),
                    Ok((intents, q5)) => s_dec_nlu_tail2(b, q5, language, intents),
                },
            }
        },
    }
}

pub open spec fn s_dec_nlu(b: Seq<u8>, p: int) -> Result<(NluModel, int), DecodeError> {
    match s_dec_maphdr(b, p) {
        Err(e) => Err(e),
        Ok((n, q)) => if n != 3 {
            Err(DecodeError::Malformed)
        } else {
            match s_dec_str(b, q) {
                Err(e) => Err(e),
                Ok((k1, q1)) => if k1 != "language".spec_bytes() {
                    Err(DecodeError::Malformed)
                } else {
                    match s_dec_str(b, q1) {
                        Err(e) => Err(e),
                        Ok((language, q2)) => s_dec_nlu_tail(b, q2, language),
                    }
                },
            }
        },
    }
}

pub open spec fn s_dec_nlus(b: Seq<u8>, p: int, n: nat) -> Result<(Seq<NluModel>, int), DecodeError>
    decreases n,
{
    if n == 0 {
        Ok((Seq::empty(), p))
    } else {
        match s_dec_nlu(b, p) {
            Err(e) => Err(e),
            Ok((t, q)) => match s_dec_nlus(b, q, (n - 1) as nat) {
                Err(e) => Err(e),
                Ok((rest, r)) => Ok((seq![t] + rest, r)),
            },
        }
    }
}

pub open spec fn s_dec_register_intents(b: Seq<u8>, p: int) -> Result<
    ((Seq<u8>, Seq<NluModel>), int),
    DecodeError,
> {
    match s_dec_maphdr(b, p) {
        Err(e) => Err(e),
        Ok((n, q)) => if n != 2 {
            Err(DecodeError::Malformed)
        } else {
            match s_dec_str(b, q) {
                Err(e) => Err(e),
                Ok((k1, q1)) => if k1 != "skill_id".spec_bytes() {
                    Err(DecodeError::Malformed)
                } else {
                    match s_dec_str(b, q1) {
                        Err(e) => Err(e),
                        Ok((sid, q2)) => match s_dec_str(b, q2) {
                            Err(e) => Err(e),
                            Ok((k2, q3)) => if k2 != "nlu_data".spec_bytes() {
                                Err(DecodeError::Malformed)
                            } else {
                                match s_dec_arrhdr(b, q3) {
                                    Err(e) => Err(e),
                                    Ok((dn, q4)) => match s_dec_nlus(b, q4, dn as nat) {
                                        Err(e) => Err(e),
                                        Ok((ds, q5)) => Ok(((sid, ds), q5)),
                                    },
                                }
                            },
                        },
                    }
                },
            }
        },
    }
}

}

verus! {

// ---------------------------------------------------------------------------
// Exec decoders
// ---------------------------------------------------------------------------

fn dec_utt(b: &Vec<u8>, p: usize) -> (r: Result<(Vec<u8>, usize), DecodeError>)
    ensures
        (match r {
            Ok((t, q)) => s_dec_utt(b@, p as int) == Ok::<(Seq<u8>, int), DecodeError>((
                t@,
                q as int,
            )),
            Err(e) => s_dec_utt(b@, p as int) == Err::<(Seq<u8>, int), DecodeError>(e),
        }),
{
    proof {
        reveal_strlit("text");
        assert(is_ascii("text"));
    }
    let (n, q) = match dec_maphdr(b, p) {
        Ok(t) => t,
        Err(e) => { return Err(e); },
    };
    if n != 1 {
        return Err(DecodeError::Malformed);
    }
    let (k, q1) = match dec_str(b, q) {
        Ok(t) => t,
        Err(e) => { return Err(e); },
    };
    let expect = key_bytes("text");
    if !bytes_eq(&k, &expect) {
        return Err(DecodeError::Malformed);
    }
    match dec_str(b, q1) {
        Ok(t) => Ok(t),
        Err(e) => Err(e),
    }
}

fn dec_utts(b: &Vec<u8>, p: usize, n: usize) -> (r: Result<
    (Vec<NluDataIntentUtterance>, usize),
    DecodeError,
>)
    ensures
        (match r {
            Ok((ts, q)) => s_dec_utts(b@, p as int, n as nat) == Ok::<
                (Seq<Seq<u8>>, int),
                DecodeError,
            >((utterances_model(ts@), q as int)),
            Err(e) => s_dec_utts(b@, p as int, n as nat) == Err::<
                (Seq<Seq<u8>>, int),
                DecodeError,
            >(e),
        }),
{
    let mut acc: Vec<NluDataIntentUtterance> = Vec::new();
    let mut cur = p;
    let mut i: usize = 0;
    proof {
        assert(utterances_model(acc@) + Seq::<Seq<u8>>::empty() =~= utterances_model(acc@));
    }
    while i < n
        invariant
            i <= n,
            (match s_dec_utts(b@, cur as int, (n - i) as nat) {
                Ok((rest, q)) => s_dec_utts(b@, p as int, n as nat) == Ok::<
                    (Seq<Seq<u8>>, int),
                    DecodeError,
                >((utterances_model(acc@) + rest, q)),
                Err(e) => s_dec_utts(b@, p as int, n as nat) == Err::<
                    (Seq<Seq<u8>>, int),
                    DecodeError,
                >(e),
            }),
        decreases n - i,
    {
        let ghost k = (n - i) as nat;
        match dec_utt(b, cur) {
            Ok((t, q)) => {
                proof {
                    assert(utterances_model(acc@.push(NluDataIntentUtterance { text: t })) =~=
                        utterances_model(acc@) + seq![t@]);
                    if let Ok((rest, r2)) = s_dec_utts(b@, q as int, (k - 1) as nat) {
                        assert((utterances_model(acc@) + (seq![t@] + rest)) =~= (utterances_model(
                            acc@,
                        ) + seq![t@]) + rest);
                    }
                }
                acc.push(NluDataIntentUtterance { text: t });
                cur = q;
                i += 1;
            },
            Err(e) => {
                return Err(e);
            },
        }
    }
    proof {
        assert(utterances_model(acc@) + Seq::<Seq<u8>>::empty() =~= utterances_model(acc@));
    }
    Ok((acc, cur))
}

fn dec_slot(b: &Vec<u8>, p: usize) -> (r: Result<(NluDataSlot, usize), DecodeError>)
    ensures
        (match r {
            Ok((s, q)) => s_dec_slot(b@, p as int) == Ok::<(SlotModel, int), DecodeError>((
                slot_model(s),
                q as int,
            )),
            Err(e) => s_dec_slot(b@, p as int) == Err::<(SlotModel, int), DecodeError>(e),
        }),
{
    proof {
        reveal_strlit("name");
        reveal_strlit("entity");
        assert(is_ascii("name"));
        assert(is_ascii("entity"));
    }
    let (n, q) = match dec_maphdr(b, p) {
        Ok(t) => t,
        Err(e) => { return Err(e); },
    };
    if n != 2 {
        return Err(DecodeError::Malformed);
    }
    let (k1, q1) = match dec_str(b, q) {
        Ok(t) => t,
        Err(e) => { return Err(e); },
    };
    let e1 = key_bytes("name");
    if !bytes_eq(&k1, &e1) {
        return Err(DecodeError::Malformed);
    }
    let (name, q2) = match dec_str(b, q1) {
        Ok(t) => t,
        Err(e) => { return Err(e); },
    };
    let (k2, q3) = match dec_str(b, q2) {
        Ok(t) => t,
        Err(e) => { return Err(e); },
    };
    let e2 = key_bytes("entity");
    if !bytes_eq(&k2, &e2) {
        return Err(DecodeError::Malformed);
    }
    let (entity, q4) = match dec_str(b, q3) {
        Ok(t) => t,
        Err(e) => { return Err(e); },
    };
    Ok((NluDataSlot { name, entity }, q4))
}

fn dec_slots(b: &Vec<u8>, p: usize, n: usize) -> (r: Result<(Vec<NluDataSlot>, usize), DecodeError>)
    ensures
        (match r {
            Ok((ss, q)) => s_dec_slots(b@, p as int, n as nat) == Ok::<
                (Seq<SlotModel>, int),
                DecodeError,
            >((ss@.map_values(|s: NluDataSlot| slot_model(s)), q as int)),
            Err(e) => s_dec_slots(b@, p as int, n as nat) == Err::<
                (Seq<SlotModel>, int),
                DecodeError,
            >(e),
        }),
{
    let ghost md = |ss: Seq<NluDataSlot>| ss.map_values(|s: NluDataSlot| slot_model(s));
    let mut acc: Vec<NluDataSlot> = Vec::new();
    let mut cur = p;
    let mut i: usize = 0;
    proof {
        assert(md(acc@) + Seq::<SlotModel>::empty() =~= md(acc@));
    }
    while i < n
        invariant
            i <= n,
            md == (|ss: Seq<NluDataSlot>| ss.map_values(|s: NluDataSlot| slot_model(s))),
            (match s_dec_slots(b@, cur as int, (n - i) as nat) {
                Ok((rest, q)) => s_dec_slots(b@, p as int, n as nat) == Ok::<
                    (Seq<SlotModel>, int),
                    DecodeError,
                >((md(acc@) + rest, q)),
                Err(e) => s_dec_slots(b@, p as int, n as nat) == Err::<
                    (Seq<SlotModel>, int),
                    DecodeError,
                >(e),
            }),
        decreases n - i,
    {
        let ghost k = (n - i) as nat;
        match dec_slot(b, cur) {
            Ok((s, q)) => {
                proof {
                    assert(md(acc@.push(s)) =~= md(acc@) + seq![slot_model(s)]);
                    if let Ok((rest, r2)) = s_dec_slots(b@, q as int, (k - 1) as nat) {
                        assert((md(acc@) + (seq![slot_model(s)] + rest)) =~= (md(acc@) + seq![
                            slot_model(s),
                        ]) + rest);
                    }
                }
                acc.push(s);
                cur = q;
                i += 1;
            },
            Err(e) => {
                return Err(e);
            },
        }
    }
    proof {
        assert(md(acc@) + Seq::<SlotModel>::empty() =~= md(acc@));
    }
    Ok((acc, cur))
}

fn dec_strs(b: &Vec<u8>, p: usize, n: usize) -> (r: Result<(Vec<Vec<u8>>, usize), DecodeError>)
    ensures
        (match r {
            Ok((cs, q)) => s_dec_strs(b@, p as int, n as nat) == Ok::<
                (Seq<Seq<u8>>, int),
                DecodeError,
            >((caps_model(cs@), q as int)),
            Err(e) => s_dec_strs(b@, p as int, n as nat) == Err::<(Seq<Seq<u8>>, int), DecodeError>(
                e,
            ),
        }),
{
    let mut acc: Vec<Vec<u8>> = Vec::new();
    let mut cur = p;
    let mut i: usize = 0;
    proof {
        assert(caps_model(acc@) + Seq::<Seq<u8>>::empty() =~= caps_model(acc@));
    }
    while i < n
        invariant
            i <= n,
            (match s_dec_strs(b@, cur as int, (n - i) as nat) {
                Ok((rest, q)) => s_dec_strs(b@, p as int, n as nat) == Ok::<
                    (Seq<Seq<u8>>, int),
                    DecodeError,
                >((caps_model(acc@) + rest, q)),
                Err(e) => s_dec_strs(b@, p as int, n as nat) == Err::<
                    (Seq<Seq<u8>>, int),
                    DecodeError,
                >(e),
            }),
        decreases n - i,
    {
        let ghost k = (n - i) as nat;
        match dec_str(b, cur) {
            Ok((v, q)) => {
                proof {
                    assert(caps_model(acc@.push(v)) =~= caps_model(acc@) + seq![v@]);
                    if let Ok((rest, r2)) = s_dec_strs(b@, q as int, (k - 1) as nat) {
                        assert((caps_model(acc@) + (seq![v@] + rest)) =~= (caps_model(acc@) + seq![
                            v@,
                        ]) + rest);
                    }
                }
                acc.push(v);
                cur = q;
                i += 1;
            },
            Err(e) => {
                return Err(e);
            },
        }
    }
    proof {
        assert(caps_model(acc@) + Seq::<Seq<u8>>::empty() =~= caps_model(acc@));
    }
    Ok((acc, cur))
}

#[verifier::spinoff_prover]
#[verifier::rlimit(60)]
fn dec_intent(b: &Vec<u8>, p: usize) -> (r: Result<(NluDataIntent, usize), DecodeError>)
    ensures
        (match r {
            Ok((it, q)) => s_dec_intent(b@, p as int) == Ok::<(IntentModel, int), DecodeError>((
                intent_model(it),
                q as int,
            )),
            Err(e) => s_dec_intent(b@, p as int) == Err::<(IntentModel, int), DecodeError>(e),
        }),
{
    proof {
        reveal_strlit("name");
        reveal_strlit("utterances");
        reveal_strlit("slots");
        assert(is_ascii("name"));
        assert(is_ascii("utterances"));
        assert(is_ascii("slots"));
    }
    let (n, q) = match dec_maphdr(b, p) {
        Ok(t) => t,
        Err(e) => { return Err(e); },
    };
    if n != 3 {
        return Err(DecodeError::Malformed);
    }
    let (k1, q1) = match dec_str(b, q) {
        Ok(t) => t,
        Err(e) => { return Err(e); },
    };
    let e1 = key_bytes("name");
    if !bytes_eq(&k1, &e1) {
        return Err(DecodeError::Malformed);
    }
    let (name, q2) = match dec_str(b, q1) {
        Ok(t) => t,
        Err(e) => { return Err(e); },
    };
    let (k2, q3) = match dec_str(b, q2) {
        Ok(t) => t,
        Err(e) => { return Err(e); },
    };
    let e2 = key_bytes("utterances");
    if !bytes_eq(&k2, &e2) {
        return Err(DecodeError::Malformed);
    }
    let (un, q4) = match dec_arrhdr(b, q3) {
        Ok(t) => t,
        Err(e) => { return Err(e); },
    };
    let (utterances, q5) = match dec_utts(b, q4, un) {
        Ok(t) => t,
        Err(e) => { return Err(e); },
    };
    let (k3, q6) = match dec_str(b, q5) {
        Ok(t) => t,
        Err(e) => { return Err(e); },
    };
    let e3 = key_bytes("slots");
    if !bytes_eq(&k3, &e3) {
        return Err(DecodeError::Malformed);
    }
    let (sn, q7) = match dec_arrhdr(b, q6) {
        Ok(t) => t,
        Err(e) => { return Err(e); },
    };
    let (slots, q8) = match dec_slots(b, q7, sn) {
        Ok(t) => t,
        Err(e) => { return Err(e); },
    };
    Ok((NluDataIntent { name, utterances, slots }, q8))
}

#[verifier::spinoff_prover]
#[verifier::rlimit(60)]
fn dec_entity(b: &Vec<u8>, p: usize) -> (r: Result<(NluDataEntity, usize), DecodeError>)
    ensures
        (match r {
            Ok((it, q)) => s_dec_entity(b@, p as int) == Ok::<(EntityModel, int), DecodeError>((
                entity_model(it),
                q as int,
            )),
            Err(e) => s_dec_entity(b@, p as int) == Err::<(EntityModel, int), DecodeError>(e),
        }),
{
    proof {
        reveal_strlit("name");
        reveal_strlit("strict");
        reveal_strlit("data");
        assert(is_ascii("name"));
        assert(is_ascii("strict"));
        assert(is_ascii("data"));
    }
    let (n, q) = match dec_maphdr(b, p) {
        Ok(t) => t,
        Err(e) => { return Err(e); },
    };
    if n != 3 {
        return Err(DecodeError::Malformed);
    }
    let (k1, q1) = match dec_str(b, q) {
        Ok(t) => t,
        Err(e) => { return Err(e); },
    };
    let e1 = key_bytes("name");
    if !bytes_eq(&k1, &e1) {
        return Err(DecodeError::Malformed);
    }
    let (name, q2) = match dec_str(b, q1) {
        Ok(t) => t,
        Err(e) => { return Err(e); },
    };
    let (k2, q3) = match dec_str(b, q2) {
        Ok(t) => t,
        Err(e) => { return Err(e); },
    };
    let e2 = key_bytes("strict");
    if !bytes_eq(&k2, &e2) {
        return Err(DecodeError::Malformed);
    }
    let (strict, q4) = match dec_bool(b, q3) {
        Ok(t) => t,
        Err(e) => { return Err(e); },
    };
    let (k3, q5) = match dec_str(b, q4) {
        Ok(t) => t,
        Err(e) => { return Err(e); },
    };
    let e3 = key_bytes("data");
    if !bytes_eq(&k3, &e3) {
        return Err(DecodeError::Malformed);
    }
    let (dn, q6) = match dec_arrhdr(b, q5) {
        Ok(t) => t,
        Err(e) => { return Err(e); },
    };
    let (data, q7) = match dec_strs(b, q6, dn) {
        Ok(t) => t,
        Err(e) => { return Err(e); },
    };
    Ok((NluDataEntity { name, strict, data }, q7))
}

fn dec_intents(b: &Vec<u8>, p: usize, n: usize) -> (r: Result<
    (Vec<NluDataIntent>, usize),
    DecodeError,
>)
    ensures
        (match r {
            Ok((ts, q)) => s_dec_intents(b@, p as int, n as nat) == Ok::<
                (Seq<IntentModel>, int),
                DecodeError,
            >((ts@.map_values(|i: NluDataIntent| intent_model(i)), q as int)),
            Err(e) => s_dec_intents(b@, p as int, n as nat) == Err::<
                (Seq<IntentModel>, int),
                DecodeError,
            >(e),
        }),
{
    let ghost md = |ts: Seq<NluDataIntent>| ts.map_values(|i: NluDataIntent| intent_model(i));
    let mut acc: Vec<NluDataIntent> = Vec::new();
    let mut cur = p;
    let mut i: usize = 0;
    proof {
        assert(md(acc@) + Seq::<IntentModel>::empty() =~= md(acc@));
    }
    while i < n
        invariant
            i <= n,
            md == (|ts: Seq<NluDataIntent>| ts.map_values(|i: NluDataIntent| intent_model(i))),
            (match s_dec_intents(b@, cur as int, (n - i) as nat) {
                Ok((rest, q)) => s_dec_intents(b@, p as int, n as nat) == Ok::<
                    (Seq<IntentModel>, int),
                    DecodeError,
                >((md(acc@) + rest, q)),
                Err(e) => s_dec_intents(b@, p as int, n as nat) == Err::<
                    (Seq<IntentModel>, int),
                    DecodeError,
                >(e),
            }),
        decreases n - i,
    {
        let ghost k = (n - i) as nat;
        match dec_intent(b, cur) {
            Ok((t, q)) => {
                proof {
                    assert(md(acc@.push(t)) =~= md(acc@) + seq![intent_model(t)]);
                    if let Ok((rest, r2)) = s_dec_intents(b@, q as int, (k - 1) as nat) {
                        assert((md(acc@) + (seq![intent_model(t)] + rest)) =~= (md(acc@) + seq![
                            intent_model(t),
                        ]) + rest);
                    }
                }
                acc.push(t);
                cur = q;
                i += 1;
            },
            Err(e) => {
                return Err(e);
            },
        }
    }
    proof {
        assert(md(acc@) + Seq::<IntentModel>::empty() =~= md(acc@));
    }
    Ok((acc, cur))
}

fn dec_entities(b: &Vec<u8>, p: usize, n: usize) -> (r: Result<
    (Vec<NluDataEntity>, usize),
    DecodeError,
>)
    ensures
        (match r {
            Ok((ts, q)) => s_dec_entities(b@, p as int, n as nat) == Ok::<
                (Seq<EntityModel>, int),
                DecodeError,
            >((ts@.map_values(|e: NluDataEntity| entity_model(e)), q as int)),
            Err(e) => s_dec_entities(b@, p as int, n as nat) == Err::<
                (Seq<EntityModel>, int),
                DecodeError,
            >(e),
        }),
{
    let ghost md = |ts: Seq<NluDataEntity>| ts.map_values(|e: NluDataEntity| entity_model(e));
    let mut acc: Vec<NluDataEntity> = Vec::new();
    let mut cur = p;
    let mut i: usize = 0;
    proof {
        assert(md(acc@) + Seq::<EntityModel>::empty() =~= md(acc@));
    }
    while i < n
        invariant
            i <= n,
            md == (|ts: Seq<NluDataEntity>| ts.map_values(|e: NluDataEntity| entity_model(e))),
            (match s_dec_entities(b@, cur as int, (n - i) as nat) {
                Ok((rest, q)) => s_dec_entities(b@, p as int, n as nat) == Ok::<
                    (Seq<EntityModel>, int),
                    DecodeError,
                >((md(acc@) + rest, q)),
                Err(e) => s_dec_entities(b@, p as int, n as nat) == Err::<
                    (Seq<EntityModel>, int),
                    DecodeError,
                >(e),
            }),
        decreases n - i,
    {
        let ghost k = (n - i) as nat;
        match dec_entity(b, cur) {
            Ok((t, q)) => {
                proof {
                    assert(md(acc@.push(t)) =~= md(acc@) + seq![entity_model(t)]);
                    if let Ok((rest, r2)) = s_dec_entities(b@, q as int, (k - 1) as nat) {
                        assert((md(acc@) + (seq![entity_model(t)] + rest)) =~= (md(acc@) + seq![
                            entity_model(t),
                        ]) + rest);
                    }
                }
                acc.push(t);
                cur = q;
                i += 1;
            },
            Err(e) => {
                return Err(e);
            },
        }
    }
    proof {
        assert(md(acc@) + Seq::<EntityModel>::empty() =~= md(acc@));
    }
    Ok((acc, cur))
}

#[verifier::spinoff_prover]
#[verifier::rlimit(60)]
fn dec_nlu_tail2(b: &Vec<u8>, p: usize, language: Vec<u8>, intents: Vec<NluDataIntent>) -> (r:
    Result<(NluData, usize), DecodeError>)
    ensures
        (match r {
            Ok((d, q)) => s_dec_nlu_tail2(
                b@,
                p as int,
                language@,
                intents@.map_values(|i: NluDataIntent| intent_model(i)),
            ) == Ok::<(NluModel, int), DecodeError>((nlu_model(d), q as int)) && d.language
                == language,
            Err(e) => s_dec_nlu_tail2(
                b@,
                p as int,
                language@,
                intents@.map_values(|i: NluDataIntent| intent_model(i)),
            ) == Err::<(NluModel, int), DecodeError>(e),
        }),
{
    proof {
        reveal(s_dec_nlu_tail2);
        reveal_strlit("entities");
        assert(is_ascii("entities"));
    }
    let (k3, q6) = match dec_str(b, p) {
        Ok(t) => t,
        Err(e) => { return Err(e); },
    };
    let e3 = key_bytes("entities");
    if !bytes_eq(&k3, &e3) {
        return Err(DecodeError::Malformed);
    }
    let (en, q7) = match dec_arrhdr(b, q6) {
        Ok(t) => t,
        Err(e) => { return Err(e); },
    };
    let (entities, q8) = match dec_entities(b, q7, en) {
        Ok(t) => t,
        Err(e) => { return Err(e); },
    };
    Ok((NluData { language, intents, entities }, q8))
}

#[verifier::spinoff_prover]
#[verifier::rlimit(60)]
fn dec_nlu_tail(b: &Vec<u8>, p: usize, language: Vec<u8>) -> (r: Result<
    (NluData, usize),
    DecodeError,
>)
    ensures
        (match r {
            Ok((d, q)) => s_dec_nlu_tail(b@, p as int, language@) == Ok::<
                (NluModel, int),
                DecodeError,
            >((nlu_model(d), q as int)) && d.language == language,
            Err(e) => s_dec_nlu_tail(b@, p as int, language@) == Err::<
                (NluModel, int),
                DecodeError,
            >(e),
        }),
{
    proof {
        reveal(s_dec_nlu_tail);
        reveal_strlit("intents");
        assert(is_ascii("intents"));
    }
    let (k2, q3) = match dec_str(b, p) {
        Ok(t) => t,
        Err(e) => { return Err(e); },
    };
    let e2 = key_bytes("intents");
    if !bytes_eq(&k2, &e2) {
        return Err(DecodeError::Malformed);
    }
    let (inn, q4) = match dec_arrhdr(b, q3) {
        Ok(t) => t,
        Err(e) => { return Err(e); },
    };
    let (intents, q5) = match dec_intents(b, q4, inn) {
        Ok(t) => t,
        Err(e) => { return Err(e); },
    };
    match dec_nlu_tail2(b, q5, language, intents) {
        Ok(t) => Ok(t),
        Err(e) => Err(e),
    }
}

#[verifier::spinoff_prover]
#[verifier::rlimit(60)]
fn dec_nlu(b: &Vec<u8>, p: usize) -> (r: Result<(NluData, usize), DecodeError>)
    ensures
        (match r {
            Ok((d, q)) => s_dec_nlu(b@, p as int) == Ok::<(NluModel, int), DecodeError>((
                nlu_model(d),
                q as int,
            )),
            Err(e) => s_dec_nlu(b@, p as int) == Err::<(NluModel, int), DecodeError>(e),
        }),
{
    proof {
        reveal_strlit("language");
        assert(is_ascii("language"));
    }
    let (n, q) = match dec_maphdr(b, p) {
        Ok(t) => t,
        Err(e) => { return Err(e); },
    };
    if n != 3 {
        return Err(DecodeError::Malformed);
    }
    let (k1, q1) = match dec_str(b, q) {
        Ok(t) => t,
        Err(e) => { return Err(e); },
    };
    let e1 = key_bytes("language");
    if !bytes_eq(&k1, &e1) {
        return Err(DecodeError::Malformed);
    }
    let (language, q2) = match dec_str(b, q1) {
        Ok(t) => t,
        Err(e) => { return Err(e); },
    };
    match dec_nlu_tail(b, q2, language) {
        Ok(t) => Ok(t),
        Err(e) => Err(e),
    }
}

#[verifier::spinoff_prover]
#[verifier::rlimit(100)]
fn dec_nlus(b: &Vec<u8>, p: usize, n: usize) -> (r: Result<(Vec<NluData>, usize), DecodeError>)
    ensures
        (match r {
            Ok((ts, q)) => s_dec_nlus(b@, p as int, n as nat) == Ok::<
                (Seq<NluModel>, int),
                DecodeError,
            >((nlus_model(ts@), q as int)),
            Err(e) => s_dec_nlus(b@, p as int, n as nat) == Err::<(Seq<NluModel>, int), DecodeError>(
                e,
            ),
        }),
{
    let mut acc: Vec<NluData> = Vec::new();
    let mut cur = p;
    let mut i: usize = 0;
    proof {
        assert(nlus_model(acc@) + Seq::<NluModel>::empty() =~= nlus_model(acc@));
    }
    while i < n
        invariant
            i <= n,
            (match s_dec_nlus(b@, cur as int, (n - i) as nat) {
                Ok((rest, q)) => s_dec_nlus(b@, p as int, n as nat) == Ok::<
                    (Seq<NluModel>, int),
                    DecodeError,
                >((nlus_model(acc@) + rest, q)),
                Err(e) => s_dec_nlus(b@, p as int, n as nat) == Err::<
                    (Seq<NluModel>, int),
                    DecodeError,
                >(e),
            }),
        decreases n - i,
    {
        let ghost k = (n - i) as nat;
        match dec_nlu(b, cur) {
            Ok((t, q)) => {
                proof {
                    assert(nlus_model(acc@.push(t)) =~= nlus_model(acc@) + seq![nlu_model(t)]);
                    if let Ok((rest, r2)) = s_dec_nlus(b@, q as int, (k - 1) as nat) {
                        assert((nlus_model(acc@) + (seq![nlu_model(t)] + rest)) =~= (nlus_model(
                            acc@,
                        ) + seq![nlu_model(t)]) + rest);
                    }
                }
                acc.push(t);
                cur = q;
                i += 1;
            },
            Err(e) => {
                return Err(e);
            },
        }
    }
    proof {
        assert(nlus_model(acc@) + Seq::<NluModel>::empty() =~= nlus_model(acc@));
    }
    Ok((acc, cur))
}

use crate::messages::MsgRegisterIntents;

/// Decodes a register-intents declaration.
#[verifier::spinoff_prover]
pub fn decode_register_intents(b: &Vec<u8>) -> (r: Result<MsgRegisterIntents, DecodeError>)
    ensures
        (match r {
            Ok(m) => s_dec_register_intents(b@, 0) matches Ok(t) && t.0 == (
                m.skill_id@,
                nlus_model(m.nlu_data@),
            ),
            Err(e) => s_dec_register_intents(b@, 0) == Err::<
                ((Seq<u8>, Seq<NluModel>), int),
                DecodeError,
            >(e),
        }),
{
    proof {
        reveal_strlit("skill_id");
        reveal_strlit("nlu_data");
        assert(is_ascii("skill_id"));
        assert(is_ascii("nlu_data"));
    }
    let (n, q) = match dec_maphdr(b, 0) {
        Ok(t) => t,
        Err(e) => { return Err(e); },
    };
    if n != 2 {
        return Err(DecodeError::Malformed);
    }
    let (k1, q1) = match dec_str(b, q) {
        Ok(t) => t,
        Err(e) => { return Err(e); },
    };
    let e1 = key_bytes("skill_id");
    if !bytes_eq(&k1, &e1) {
        return Err(DecodeError::Malformed);
    }
    let (sid, q2) = match dec_str(b, q1) {
        Ok(t) => t,
        Err(e) => { return Err(e); },
    };
    let (k2, q3) = match dec_str(b, q2) {
        Ok(t) => t,
        Err(e) => { return Err(e); },
    };
    let e2 = key_bytes("nlu_data");
    if !bytes_eq(&k2, &e2) {
        return Err(DecodeError::Malformed);
    }
    let (dn, q4) = match dec_arrhdr(b, q3) {
        Ok(t) => t,
        Err(e) => { return Err(e); },
    };
    let (nlu_data, q5) = match dec_nlus(b, q4, dn) {
        Ok(t) => t,
        Err(e) => { return Err(e); },
    };
    Ok(MsgRegisterIntents { skill_id: sid, nlu_data })
}

}

verus! {

// ---------------------------------------------------------------------------
// Exec encoders
// ---------------------------------------------------------------------------

use crate::msgpack::push_bytes;

pub open spec fn s_enc_utts_upto(ts: Seq<Seq<u8>>, i: int) -> Seq<u8>
    decreases i,
{
    if i <= 0 || i > ts.len() {
        Seq::empty()
    } else {
        s_enc_utts_upto(ts, i - 1) + s_enc_utt(ts[i - 1])
    }
}

pub proof fn lemma_utts_split(ts: Seq<Seq<u8>>, i: int)
    requires
        0 <= i <= ts.len(),
    ensures
        s_enc_utts_upto(ts, i) + s_enc_utts_from(ts, i) == s_enc_utts_from(ts, 0),
    decreases i,
{
    if i == 0 {
        assert(s_enc_utts_upto(ts, 0) + s_enc_utts_from(ts, 0) =~= s_enc_utts_from(ts, 0));
    } else {
        lemma_utts_split(ts, i - 1);
        assert(s_enc_utts_upto(ts, i) + s_enc_utts_from(ts, i) =~= s_enc_utts_upto(ts, i - 1)
            + s_enc_utts_from(ts, i - 1));
    }
}

pub open spec fn s_enc_slots_upto(ss: Seq<SlotModel>, i: int) -> Seq<u8>
    decreases i,
{
    if i <= 0 || i > ss.len() {
        Seq::empty()
    } else {
        s_enc_slots_upto(ss, i - 1) + s_enc_slot(ss[i - 1])
    }
}

pub proof fn lemma_slots_split(ss: Seq<SlotModel>, i: int)
    requires
        0 <= i <= ss.len(),
    ensures
        s_enc_slots_upto(ss, i) + s_enc_slots_from(ss, i) == s_enc_slots_from(ss, 0),
    decreases i,
{
    if i == 0 {
        assert(s_enc_slots_upto(ss, 0) + s_enc_slots_from(ss, 0) =~= s_enc_slots_from(ss, 0));
    } else {
        lemma_slots_split(ss, i - 1);
        assert(s_enc_slots_upto(ss, i) + s_enc_slots_from(ss, i) =~= s_enc_slots_upto(ss, i - 1)
            + s_enc_slots_from(ss, i - 1));
    }
}

pub open spec fn s_enc_strs_upto(cs: Seq<Seq<u8>>, i: int) -> Seq<u8>
    decreases i,
{
    if i <= 0 || i > cs.len() {
        Seq::empty()
    } else {
        s_enc_strs_upto(cs, i - 1) + s_enc_str(cs[i - 1])
    }
}

pub proof fn lemma_strs_split(cs: Seq<Seq<u8>>, i: int)
    requires
        0 <= i <= cs.len(),
    ensures
        s_enc_strs_upto(cs, i) + s_enc_strs_from(cs, i) == s_enc_strs_from(cs, 0),
    decreases i,
{
    if i == 0 {
        assert(s_enc_strs_upto(cs, 0) + s_enc_strs_from(cs, 0) =~= s_enc_strs_from(cs, 0));
    } else {
        lemma_strs_split(cs, i - 1);
        assert(s_enc_strs_upto(cs, i) + s_enc_strs_from(cs, i) =~= s_enc_strs_upto(cs, i - 1)
            + s_enc_strs_from(cs, i - 1));
    }
}

pub open spec fn s_enc_intents_upto(ms: Seq<IntentModel>, i: int) -> Seq<u8>
    decreases i,
{
    if i <= 0 || i > ms.len() {
        Seq::empty()
    } else {
        s_enc_intents_upto(ms, i - 1) + s_enc_intent(ms[i - 1])
    }
}

pub proof fn lemma_intents_split(ms: Seq<IntentModel>, i: int)
    requires
        0 <= i <= ms.len(),
    ensures
        s_enc_intents_upto(ms, i) + s_enc_intents_from(ms, i) == s_enc_intents_from(ms, 0),
    decreases i,
{
    if i == 0 {
        assert(s_enc_intents_upto(ms, 0) + s_enc_intents_from(ms, 0) =~= s_enc_intents_from(
            ms,
            0,
        ));
    } else {
        lemma_intents_split(ms, i - 1);
        assert(s_enc_intents_upto(ms, i) + s_enc_intents_from(ms, i) =~= s_enc_intents_upto(
            ms,
            i - 1,
        ) + s_enc_intents_from(ms, i - 1));
    }
}

pub open spec fn s_enc_entities_upto(ms: Seq<EntityModel>, i: int) -> Seq<u8>
    decreases i,
{
    if i <= 0 || i > ms.len() {
        Seq::empty()
    } else {
        s_enc_entities_upto(ms, i - 1) + s_enc_entity(ms[i - 1])
    }
}

pub proof fn lemma_entities_split(ms: Seq<EntityModel>, i: int)
    requires
        0 <= i <= ms.len(),
    ensures
        s_enc_entities_upto(ms, i) + s_enc_entities_from(ms, i) == s_enc_entities_from(ms, 0),
    decreases i,
{
    if i == 0 {
        assert(s_enc_entities_upto(ms, 0) + s_enc_entities_from(ms, 0) =~= s_enc_entities_from(
            ms,
            0,
        ));
    } else {
        lemma_entities_split(ms, i - 1);
        assert(s_enc_entities_upto(ms, i) + s_enc_entities_from(ms, i) =~= s_enc_entities_upto(
            ms,
            i - 1,
        ) + s_enc_entities_from(ms, i - 1));
    }
}

pub open spec fn s_enc_nlus_upto(ms: Seq<NluModel>, i: int) -> Seq<u8>
    decreases i,
{
    if i <= 0 || i > ms.len() {
        Seq::empty()
    } else {
        s_enc_nlus_upto(ms, i - 1) + s_enc_nlu(ms[i - 1])
    }
}

pub proof fn lemma_nlus_split(ms: Seq<NluModel>, i: int)
    requires
        0 <= i <= ms.len(),
    ensures
        s_enc_nlus_upto(ms, i) + s_enc_nlus_from(ms, i) == s_enc_nlus_from(ms, 0),
    decreases i,
{
    if i == 0 {
        assert(s_enc_nlus_upto(ms, 0) + s_enc_nlus_from(ms, 0) =~= s_enc_nlus_from(ms, 0));
    } else {
        lemma_nlus_split(ms, i - 1);
        assert(s_enc_nlus_upto(ms, i) + s_enc_nlus_from(ms, i) =~= s_enc_nlus_upto(ms, i - 1)
            + s_enc_nlus_from(ms, i - 1));
    }
}

fn enc_utt(out: &mut Vec<u8>, t: &Vec<u8>)
    requires
        t@.len() < 0x100000000,
    ensures
        final(out)@ == old(out)@ + s_enc_utt(t@),
{
    proof {
        reveal_strlit("text");
        assert(is_ascii("text"));
    }
    enc_maphdr(out, 1);
    let k = key_bytes("text");
    enc_str(out, &k);
    enc_str(out, t);
    proof {
        assert(out@ =~= old(out)@ + s_enc_utt(t@));
    }
}

fn enc_utts(out: &mut Vec<u8>, ts: &Vec<NluDataIntentUtterance>)
    requires
        wf_caps(utterances_model(ts@)),
    ensures
        final(out)@ == old(out)@ + s_enc_utts_from(utterances_model(ts@), 0),
{
    let ghost um = utterances_model(ts@);
    let mut i: usize = 0;
    while i < ts.len()
        invariant
            i <= ts@.len(),
            um == utterances_model(ts@),
            wf_caps(um),
            out@ == old(out)@ + s_enc_utts_upto(um, i as int),
        decreases ts@.len() - i,
    {
        proof {
            assert(um[i as int] == ts@[i as int].text@);
        }
        enc_utt(out, &ts[i].text);
        proof {
            assert(out@ =~= old(out)@ + s_enc_utts_upto(um, i + 1));
        }
        i += 1;
    }
    proof {
        lemma_utts_split(um, um.len() as int);
    }
}

fn enc_slot(out: &mut Vec<u8>, s: &NluDataSlot)
    requires
        wf_slot(slot_model(*s)),
    ensures
        final(out)@ == old(out)@ + s_enc_slot(slot_model(*s)),
{
    proof {
        reveal_strlit("name");
        reveal_strlit("entity");
        assert(is_ascii("name"));
        assert(is_ascii("entity"));
    }
    enc_maphdr(out, 2);
    let k1 = key_bytes("name");
    enc_str(out, &k1);
    enc_str(out, &s.name);
    let k2 = key_bytes("entity");
    enc_str(out, &k2);
    enc_str(out, &s.entity);
    proof {
        assert(out@ =~= old(out)@ + s_enc_slot(slot_model(*s)));
    }
}

fn enc_slots(out: &mut Vec<u8>, ss: &Vec<NluDataSlot>)
    requires
        ss@.len() < 0x100000000,
        forall|j: int|
            0 <= j < ss@.len() ==> wf_slot(slot_model(#[trigger] ss@[j])),
    ensures
        final(out)@ == old(out)@ + s_enc_slots_from(
            ss@.map_values(|s: NluDataSlot| slot_model(s)),
            0,
        ),
{
    let ghost sm = ss@.map_values(|s: NluDataSlot| slot_model(s));
    let mut i: usize = 0;
    while i < ss.len()
        invariant
            i <= ss@.len(),
            sm == ss@.map_values(|s: NluDataSlot| slot_model(s)),
            forall|j: int| 0 <= j < ss@.len() ==> wf_slot(slot_model(#[trigger] ss@[j])),
            out@ == old(out)@ + s_enc_slots_upto(sm, i as int),
        decreases ss@.len() - i,
    {
        proof {
            assert(sm[i as int] == slot_model(ss@[i as int]));
        }
        enc_slot(out, &ss[i]);
        proof {
            assert(out@ =~= old(out)@ + s_enc_slots_upto(sm, i + 1));
        }
        i += 1;
    }
    proof {
        lemma_slots_split(sm, sm.len() as int);
    }
}

fn enc_strs(out: &mut Vec<u8>, cs: &Vec<Vec<u8>>)
    requires
        wf_caps(caps_model(cs@)),
    ensures
        final(out)@ == old(out)@ + s_enc_strs_from(caps_model(cs@), 0),
{
    let ghost cm = caps_model(cs@);
    let mut i: usize = 0;
    while i < cs.len()
        invariant
            i <= cs@.len(),
            cm == caps_model(cs@),
            wf_caps(cm),
            out@ == old(out)@ + s_enc_strs_upto(cm, i as int),
        decreases cs@.len() - i,
    {
        proof {
            assert(cm[i as int] == cs@[i as int]@);
        }
        enc_str(out, &cs[i]);
        proof {
            assert(out@ =~= old(out)@ + s_enc_strs_upto(cm, i + 1));
        }
        i += 1;
    }
    proof {
        lemma_strs_split(cm, cm.len() as int);
    }
}

#[verifier::spinoff_prover]
fn enc_intent(out: &mut Vec<u8>, it: &NluDataIntent)
    requires
        wf_intent(intent_model(*it)),
    ensures
        final(out)@ == old(out)@ + s_enc_intent(intent_model(*it)),
{
    proof {
        reveal(s_enc_intent);
        reveal_strlit("name");
        reveal_strlit("utterances");
        reveal_strlit("slots");
        assert(is_ascii("name"));
        assert(is_ascii("utterances"));
        assert(is_ascii("slots"));
    }
    enc_maphdr(out, 3);
    let k1 = key_bytes("name");
    enc_str(out, &k1);
    enc_str(out, &it.name);
    let k2 = key_bytes("utterances");
    enc_str(out, &k2);
    enc_arrhdr(out, it.utterances.len());
    enc_utts(out, &it.utterances);
    let k3 = key_bytes("slots");
    enc_str(out, &k3);
    enc_arrhdr(out, it.slots.len());
    proof {
        assert forall|j: int| 0 <= j < it.slots@.len() implies wf_slot(
            slot_model(#[trigger] it.slots@[j]),
        ) by {
            assert(intent_model(*it).slots[j] == slot_model(it.slots@[j]));
        };
    }
    enc_slots(out, &it.slots);
    proof {
        assert(out@ =~= old(out)@ + s_enc_intent(intent_model(*it)));
    }
}

#[verifier::spinoff_prover]
fn enc_entity(out: &mut Vec<u8>, e: &NluDataEntity)
    requires
        wf_entity(entity_model(*e)),
    ensures
        final(out)@ == old(out)@ + s_enc_entity(entity_model(*e)),
{
    proof {
        reveal(s_enc_entity);
        reveal_strlit("name");
        reveal_strlit("strict");
        reveal_strlit("data");
        assert(is_ascii("name"));
        assert(is_ascii("strict"));
        assert(is_ascii("data"));
    }
    enc_maphdr(out, 3);
    let k1 = key_bytes("name");
    enc_str(out, &k1);
    enc_str(out, &e.name);
    let k2 = key_bytes("strict");
    enc_str(out, &k2);
    enc_bool(out, e.strict);
    let k3 = key_bytes("data");
    enc_str(out, &k3);
    enc_arrhdr(out, e.data.len());
    enc_strs(out, &e.data);
    proof {
        assert(out@ =~= old(out)@ + s_enc_entity(entity_model(*e)));
    }
}

#[verifier::spinoff_prover]
fn enc_nlu(out: &mut Vec<u8>, d: &NluData)
    requires
        wf_nlu(nlu_model(*d)),
    ensures
        final(out)@ == old(out)@ + s_enc_nlu(nlu_model(*d)),
{
    proof {
        reveal(s_enc_nlu_tail);
        reveal_strlit("language");
        reveal_strlit("intents");
        reveal_strlit("entities");
        assert(is_ascii("language"));
        assert(is_ascii("intents"));
        assert(is_ascii("entities"));
    }
    let ghost dm = nlu_model(*d);
    enc_maphdr(out, 3);
    let k1 = key_bytes("language");
    enc_str(out, &k1);
    enc_str(out, &d.language);
    let k2 = key_bytes("intents");
    enc_str(out, &k2);
    enc_arrhdr(out, d.intents.len());
    let ghost pfx = out@;
    let mut i: usize = 0;
    while i < d.intents.len()
        invariant
            i <= d.intents@.len(),
            dm == nlu_model(*d),
            wf_nlu(dm),
            out@ == pfx + s_enc_intents_upto(dm.intents, i as int),
        decreases d.intents@.len() - i,
    {
        proof {
            assert(dm.intents[i as int] == intent_model(d.intents@[i as int]));
        }
        enc_intent(out, &d.intents[i]);
        proof {
            assert(out@ =~= pfx + s_enc_intents_upto(dm.intents, i + 1));
        }
        i += 1;
    }
    proof {
        lemma_intents_split(dm.intents, dm.intents.len() as int);
    }
    let k3 = key_bytes("entities");
    enc_str(out, &k3);
    enc_arrhdr(out, d.entities.len());
    let ghost pfx2 = out@;
    let mut j: usize = 0;
    while j < d.entities.len()
        invariant
            j <= d.entities@.len(),
            dm == nlu_model(*d),
            wf_nlu(dm),
            out@ == pfx2 + s_enc_entities_upto(dm.entities, j as int),
        decreases d.entities@.len() - j,
    {
        proof {
            assert(dm.entities[j as int] == entity_model(d.entities@[j as int]));
        }
        enc_entity(out, &d.entities[j]);
        proof {
            assert(out@ =~= pfx2 + s_enc_entities_upto(dm.entities, j + 1));
        }
        j += 1;
    }
    proof {
        lemma_entities_split(dm.entities, dm.entities.len() as int);
        assert(out@ =~= old(out)@ + s_enc_nlu(dm));
    }
}

/// Encodes a register-intents declaration.
#[verifier::spinoff_prover]
pub fn encode_register_intents(m: &MsgRegisterIntents) -> (r: Vec<u8>)
    requires
        wf_register_intents(m.skill_id@, nlus_model(m.nlu_data@)),
    ensures
        r@ == s_enc_register_intents(m.skill_id@, nlus_model(m.nlu_data@)),
{
    proof {
        reveal_strlit("skill_id");
        reveal_strlit("nlu_data");
        assert(is_ascii("skill_id"));
        assert(is_ascii("nlu_data"));
    }
    let ghost ds = nlus_model(m.nlu_data@);
    let mut out: Vec<u8> = Vec::new();
    enc_maphdr(&mut out, 2);
    let k1 = key_bytes("skill_id");
    enc_str(&mut out, &k1);
    enc_str(&mut out, &m.skill_id);
    let k2 = key_bytes("nlu_data");
    enc_str(&mut out, &k2);
    enc_arrhdr(&mut out, m.nlu_data.len());
    let ghost pfx = out@;
    let mut i: usize = 0;
    while i < m.nlu_data.len()
        invariant
            i <= m.nlu_data@.len(),
            ds == nlus_model(m.nlu_data@),
            wf_register_intents(m.skill_id@, ds),
            out@ == pfx + s_enc_nlus_upto(ds, i as int),
        decreases m.nlu_data@.len() - i,
    {
        proof {
            assert(ds[i as int] == nlu_model(m.nlu_data@[i as int]));
        }
        enc_nlu(&mut out, &m.nlu_data[i]);
        proof {
            assert(out@ =~= pfx + s_enc_nlus_upto(ds, i + 1));
        }
        i += 1;
    }
    proof {
        lemma_nlus_split(ds, ds.len() as int);
        assert(out@ =~= s_enc_register_intents(m.skill_id@, ds));
    }
    out
}

}

verus! {

// ---------------------------------------------------------------------------
// Round trips
// ---------------------------------------------------------------------------

use crate::msgpack::lemma_rt_str;
use crate::msgpack::lemma_rt_bool;
use crate::msgpack::lemma_rt_maphdr;
use crate::msgpack::lemma_rt_arrhdr;
use crate::msgpack::lemma_subrange_shift;
use crate::wire::lemma_ascii_bytes_len;

pub proof fn lemma_rt_utt(b: Seq<u8>, p: int, t: Seq<u8>)
    requires
        0 <= p,
        t.len() < 0x100000000,
        p + s_enc_utt(t).len() <= b.len(),
        b.subrange(p, p + s_enc_utt(t).len()) == s_enc_utt(t),
    ensures
        s_dec_utt(b, p) == Ok::<(Seq<u8>, int), DecodeError>((t, p + s_enc_utt(t).len())),
{
    reveal_strlit("text");
    assert(is_ascii("text"));
    lemma_ascii_bytes_len("text");
    let e = s_enc_utt(t);
    let s0 = s_enc_maphdr(1);
    let s1 = s_enc_str("text".spec_bytes());
    let s2 = s_enc_str(t);
    let p1 = s0.len() as int;
    let p2 = p1 + s1.len() as int;
    let p3 = p2 + s2.len() as int;
    assert(e.len() == p3);
    lemma_subrange_shift(b, p, 0, p1, e);
    assert(e.subrange(0, p1) =~= s0);
    lemma_rt_maphdr(b, p, 1);
    lemma_subrange_shift(b, p, p1, p2, e);
    assert(e.subrange(p1, p2) =~= s1);
    lemma_rt_str(b, p + p1, "text".spec_bytes());
    lemma_subrange_shift(b, p, p2, p3, e);
    assert(e.subrange(p2, p3) =~= s2);
    lemma_rt_str(b, p + p2, t);
}

pub proof fn lemma_rt_utts(b: Seq<u8>, p: int, ts: Seq<Seq<u8>>, i: int)
    requires
        0 <= p,
        0 <= i <= ts.len(),
        wf_caps(ts),
        p + s_enc_utts_from(ts, i).len() <= b.len(),
        b.subrange(p, p + s_enc_utts_from(ts, i).len()) == s_enc_utts_from(ts, i),
    ensures
        s_dec_utts(b, p, (ts.len() - i) as nat) == Ok::<(Seq<Seq<u8>>, int), DecodeError>((
            ts.skip(i),
            p + s_enc_utts_from(ts, i).len(),
        )),
    decreases ts.len() - i,
{
    let e = s_enc_utts_from(ts, i);
    if i == ts.len() {
        assert(ts.skip(i) =~= Seq::<Seq<u8>>::empty());
    } else {
        let s0 = s_enc_utt(ts[i]);
        let s1 = s_enc_utts_from(ts, i + 1);
        assert(e == s0 + s1);
        lemma_subrange_shift(b, p, 0, s0.len() as int, e);
        assert(e.subrange(0, s0.len() as int) =~= s0);
        lemma_rt_utt(b, p, ts[i]);
        lemma_subrange_shift(b, p, s0.len() as int, e.len() as int, e);
        assert(e.subrange(s0.len() as int, e.len() as int) =~= s1);
        lemma_rt_utts(b, p + s0.len(), ts, i + 1);
        assert(seq![ts[i]] + ts.skip(i + 1) =~= ts.skip(i));
    }
}

#[verifier::spinoff_prover]
pub proof fn lemma_rt_slot(b: Seq<u8>, p: int, s: SlotModel)
    requires
        0 <= p,
        wf_slot(s),
        p + s_enc_slot(s).len() <= b.len(),
        b.subrange(p, p + s_enc_slot(s).len()) == s_enc_slot(s),
    ensures
        s_dec_slot(b, p) == Ok::<(SlotModel, int), DecodeError>((s, p + s_enc_slot(s).len())),
{
    reveal_strlit("name");
    reveal_strlit("entity");
    assert(is_ascii("name"));
    assert(is_ascii("entity"));
    lemma_ascii_bytes_len("name");
    lemma_ascii_bytes_len("entity");
    let e = s_enc_slot(s);
    let s0 = s_enc_maphdr(2);
    let s1 = s_enc_str("name".spec_bytes());
    let s2 = s_enc_str(s.name);
    let s3 = s_enc_str("entity".spec_bytes());
    let s4 = s_enc_str(s.entity);
    let p1 = s0.len() as int;
    let p2 = p1 + s1.len() as int;
    let p3 = p2 + s2.len() as int;
    let p4 = p3 + s3.len() as int;
    let p5 = p4 + s4.len() as int;
    assert(e.len() == p5);
    lemma_subrange_shift(b, p, 0, p1, e);
    assert(e.subrange(0, p1) =~= s0);
    lemma_rt_maphdr(b, p, 2);
    lemma_subrange_shift(b, p, p1, p2, e);
    assert(e.subrange(p1, p2) =~= s1);
    lemma_rt_str(b, p + p1, "name".spec_bytes());
    lemma_subrange_shift(b, p, p2, p3, e);
    assert(e.subrange(p2, p3) =~= s2);
    lemma_rt_str(b, p + p2, s.name);
    lemma_subrange_shift(b, p, p3, p4, e);
    assert(e.subrange(p3, p4) =~= s3);
    lemma_rt_str(b, p + p3, "entity".spec_bytes());
    lemma_subrange_shift(b, p, p4, p5, e);
    assert(e.subrange(p4, p5) =~= s4);
    lemma_rt_str(b, p + p4, s.entity);
}

pub proof fn lemma_rt_slots(b: Seq<u8>, p: int, ss: Seq<SlotModel>, i: int)
    requires
        0 <= p,
        0 <= i <= ss.len(),
        forall|j: int| 0 <= j < ss.len() ==> wf_slot(#[trigger] ss[j]),
        p + s_enc_slots_from(ss, i).len() <= b.len(),
        b.subrange(p, p + s_enc_slots_from(ss, i).len()) == s_enc_slots_from(ss, i),
    ensures
        s_dec_slots(b, p, (ss.len() - i) as nat) == Ok::<(Seq<SlotModel>, int), DecodeError>((
            ss.skip(i),
            p + s_enc_slots_from(ss, i).len(),
        )),
    decreases ss.len() - i,
{
    let e = s_enc_slots_from(ss, i);
    if i == ss.len() {
        assert(ss.skip(i) =~= Seq::<SlotModel>::empty());
    } else {
        let s0 = s_enc_slot(ss[i]);
        let s1 = s_enc_slots_from(ss, i + 1);
        assert(e == s0 + s1);
        lemma_subrange_shift(b, p, 0, s0.len() as int, e);
        assert(e.subrange(0, s0.len() as int) =~= s0);
        lemma_rt_slot(b, p, ss[i]);
        lemma_subrange_shift(b, p, s0.len() as int, e.len() as int, e);
        assert(e.subrange(s0.len() as int, e.len() as int) =~= s1);
        lemma_rt_slots(b, p + s0.len(), ss, i + 1);
        assert(seq![ss[i]] + ss.skip(i + 1) =~= ss.skip(i));
    }
}

pub proof fn lemma_rt_strs(b: Seq<u8>, p: int, cs: Seq<Seq<u8>>, i: int)
    requires
        0 <= p,
        0 <= i <= cs.len(),
        wf_caps(cs),
        p + s_enc_strs_from(cs, i).len() <= b.len(),
        b.subrange(p, p + s_enc_strs_from(cs, i).len()) == s_enc_strs_from(cs, i),
    ensures
        s_dec_strs(b, p, (cs.len() - i) as nat) == Ok::<(Seq<Seq<u8>>, int), DecodeError>((
            cs.skip(i),
            p + s_enc_strs_from(cs, i).len(),
        )),
    decreases cs.len() - i,
{
    let e = s_enc_strs_from(cs, i);
    if i == cs.len() {
        assert(cs.skip(i) =~= Seq::<Seq<u8>>::empty());
    } else {
        let s0 = s_enc_str(cs[i]);
        let s1 = s_enc_strs_from(cs, i + 1);
        assert(e == s0 + s1);
        lemma_subrange_shift(b, p, 0, s0.len() as int, e);
        assert(e.subrange(0, s0.len() as int) =~= s0);
        lemma_rt_str(b, p, cs[i]);
        lemma_subrange_shift(b, p, s0.len() as int, e.len() as int, e);
        assert(e.subrange(s0.len() as int, e.len() as int) =~= s1);
        lemma_rt_strs(b, p + s0.len(), cs, i + 1);
        assert(seq![cs[i]] + cs.skip(i + 1) =~= cs.skip(i));
    }
}

#[verifier::spinoff_prover]
#[verifier::rlimit(100)]
pub proof fn lemma_rt_intent(b: Seq<u8>, p: int, m: IntentModel)
    requires
        0 <= p,
        wf_intent(m),
        p + s_enc_intent(m).len() <= b.len(),
        b.subrange(p, p + s_enc_intent(m).len()) == s_enc_intent(m),
    ensures
        s_dec_intent(b, p) == Ok::<(IntentModel, int), DecodeError>((
            m,
            p + s_enc_intent(m).len(),
        )),
{
    reveal(s_enc_intent);
    reveal_strlit("name");
    reveal_strlit("utterances");
    reveal_strlit("slots");
    assert(is_ascii("name"));
    assert(is_ascii("utterances"));
    assert(is_ascii("slots"));
    lemma_ascii_bytes_len("name");
    lemma_ascii_bytes_len("utterances");
    lemma_ascii_bytes_len("slots");
    let e = s_enc_intent(m);
    let s0 = s_enc_maphdr(3);
    let s1 = s_enc_str("name".spec_bytes());
    let s2 = s_enc_str(m.name);
    let s3 = s_enc_str("utterances".spec_bytes());
    let s4 = s_enc_arrhdr(m.utterances.len() as int);
    let s5 = s_enc_utts_from(m.utterances, 0);
    let s6 = s_enc_str("slots".spec_bytes());
    let s7 = s_enc_arrhdr(m.slots.len() as int);
    let s8 = s_enc_slots_from(m.slots, 0);
    let p1 = s0.len() as int;
    let p2 = p1 + s1.len() as int;
    let p3 = p2 + s2.len() as int;
    let p4 = p3 + s3.len() as int;
    let p5 = p4 + s4.len() as int;
    let p6 = p5 + s5.len() as int;
    let p7 = p6 + s6.len() as int;
    let p8 = p7 + s7.len() as int;
    let p9 = p8 + s8.len() as int;
    assert(e =~= s0 + s1 + s2 + s3 + (s4 + s5) + s6 + (s7 + s8));
    assert(e.len() == p9);
    lemma_subrange_shift(b, p, 0, p1, e);
    assert(e.subrange(0, p1) =~= s0);
    lemma_rt_maphdr(b, p, 3);
    lemma_subrange_shift(b, p, p1, p2, e);
    assert(e.subrange(p1, p2) =~= s1);
    lemma_rt_str(b, p + p1, "name".spec_bytes());
    lemma_subrange_shift(b, p, p2, p3, e);
    assert(e.subrange(p2, p3) =~= s2);
    lemma_rt_str(b, p + p2, m.name);
    lemma_subrange_shift(b, p, p3, p4, e);
    assert(e.subrange(p3, p4) =~= s3);
    lemma_rt_str(b, p + p3, "utterances".spec_bytes());
    lemma_subrange_shift(b, p, p4, p5, e);
    assert(e.subrange(p4, p5) =~= s4);
    lemma_rt_arrhdr(b, p + p4, m.utterances.len() as int);
    lemma_subrange_shift(b, p, p5, p6, e);
    assert(e.subrange(p5, p6) =~= s5);
    lemma_rt_utts(b, p + p5, m.utterances, 0);
    assert(m.utterances.skip(0) =~= m.utterances);
    lemma_subrange_shift(b, p, p6, p7, e);
    assert(e.subrange(p6, p7) =~= s6);
    lemma_rt_str(b, p + p6, "slots".spec_bytes());
    lemma_subrange_shift(b, p, p7, p8, e);
    assert(e.subrange(p7, p8) =~= s7);
    lemma_rt_arrhdr(b, p + p7, m.slots.len() as int);
    lemma_subrange_shift(b, p, p8, p9, e);
    assert(e.subrange(p8, p9) =~= s8);
    lemma_rt_slots(b, p + p8, m.slots, 0);
    assert(m.slots.skip(0) =~= m.slots);
}

#[verifier::spinoff_prover]
#[verifier::rlimit(100)]
pub proof fn lemma_rt_intents(b: Seq<u8>, p: int, ms: Seq<IntentModel>, i: int)
    requires
        0 <= p,
        0 <= i <= ms.len(),
        forall|j: int| 0 <= j < ms.len() ==> wf_intent(#[trigger] ms[j]),
        p + s_enc_intents_from(ms, i).len() <= b.len(),
        b.subrange(p, p + s_enc_intents_from(ms, i).len()) == s_enc_intents_from(ms, i),
    ensures
        s_dec_intents(b, p, (ms.len() - i) as nat) == Ok::<(Seq<IntentModel>, int), DecodeError>((
            ms.skip(i),
            p + s_enc_intents_from(ms, i).len(),
        )),
    decreases ms.len() - i,
{
    let e = s_enc_intents_from(ms, i);
    if i == ms.len() {
        assert(ms.skip(i) =~= Seq::<IntentModel>::empty());
    } else {
        let s0 = s_enc_intent(ms[i]);
        let s1 = s_enc_intents_from(ms, i + 1);
        assert(e == s0 + s1);
        lemma_subrange_shift(b, p, 0, s0.len() as int, e);
        assert(e.subrange(0, s0.len() as int) =~= s0);
        lemma_rt_intent(b, p, ms[i]);
        lemma_subrange_shift(b, p, s0.len() as int, e.len() as int, e);
        assert(e.subrange(s0.len() as int, e.len() as int) =~= s1);
        lemma_rt_intents(b, p + s0.len(), ms, i + 1);
        assert(seq![ms[i]] + ms.skip(i + 1) =~= ms.skip(i));
    }
}

#[verifier::spinoff_prover]
#[verifier::rlimit(100)]
pub proof fn lemma_rt_entity(b: Seq<u8>, p: int, m: EntityModel)
    requires
        0 <= p,
        wf_entity(m),
        p + s_enc_entity(m).len() <= b.len(),
        b.subrange(p, p + s_enc_entity(m).len()) == s_enc_entity(m),
    ensures
        s_dec_entity(b, p) == Ok::<(EntityModel, int), DecodeError>((
            m,
            p + s_enc_entity(m).len(),
        )),
{
    reveal(s_enc_entity);
    reveal_strlit("name");
    reveal_strlit("strict");
    reveal_strlit("data");
    assert(is_ascii("name"));
    assert(is_ascii("strict"));
    assert(is_ascii("data"));
    lemma_ascii_bytes_len("name");
    lemma_ascii_bytes_len("strict");
    lemma_ascii_bytes_len("data");
    let e = s_enc_entity(m);
    let s0 = s_enc_maphdr(3);
    let s1 = s_enc_str("name".spec_bytes());
    let s2 = s_enc_str(m.name);
    let s3 = s_enc_str("strict".spec_bytes());
    let s4 = s_enc_bool(m.strict);
    let s5 = s_enc_str("data".spec_bytes());
    let s6 = s_enc_arrhdr(m.data.len() as int);
    let s7 = s_enc_strs_from(m.data, 0);
    let p1 = s0.len() as int;
    let p2 = p1 + s1.len() as int;
    let p3 = p2 + s2.len() as int;
    let p4 = p3 + s3.len() as int;
    let p5 = p4 + s4.len() as int;
    let p6 = p5 + s5.len() as int;
    let p7 = p6 + s6.len() as int;
    let p8 = p7 + s7.len() as int;
    assert(e =~= s0 + s1 + s2 + s3 + s4 + s5 + (s6 + s7));
    assert(e.len() == p8);
    lemma_subrange_shift(b, p, 0, p1, e);
    assert(e.subrange(0, p1) =~= s0);
    lemma_rt_maphdr(b, p, 3);
    lemma_subrange_shift(b, p, p1, p2, e);
    assert(e.subrange(p1, p2) =~= s1);
    lemma_rt_str(b, p + p1, "name".spec_bytes());
    lemma_subrange_shift(b, p, p2, p3, e);
    assert(e.subrange(p2, p3) =~= s2);
    lemma_rt_str(b, p + p2, m.name);
    lemma_subrange_shift(b, p, p3, p4, e);
    assert(e.subrange(p3, p4) =~= s3);
    lemma_rt_str(b, p + p3, "strict".spec_bytes());
    lemma_subrange_shift(b, p, p4, p5, e);
    assert(e.subrange(p4, p5) =~= s4);
    lemma_rt_bool(b, p + p4, m.strict);
    lemma_subrange_shift(b, p, p5, p6, e);
    assert(e.subrange(p5, p6) =~= s5);
    lemma_rt_str(b, p + p5, "data".spec_bytes());
    lemma_subrange_shift(b, p, p6, p7, e);
    assert(e.subrange(p6, p7) =~= s6);
    lemma_rt_arrhdr(b, p + p6, m.data.len() as int);
    lemma_subrange_shift(b, p, p7, p8, e);
    assert(e.subrange(p7, p8) =~= s7);
    lemma_rt_strs(b, p + p7, m.data, 0);
    assert(m.data.skip(0) =~= m.data);
}

#[verifier::spinoff_prover]
#[verifier::rlimit(100)]
pub proof fn lemma_rt_entities(b: Seq<u8>, p: int, ms: Seq<EntityModel>, i: int)
    requires
        0 <= p,
        0 <= i <= ms.len(),
        forall|j: int| 0 <= j < ms.len() ==> wf_entity(#[trigger] ms[j]),
        p + s_enc_entities_from(ms, i).len() <= b.len(),
        b.subrange(p, p + s_enc_entities_from(ms, i).len()) == s_enc_entities_from(ms, i),
    ensures
        s_dec_entities(b, p, (ms.len() - i) as nat) == Ok::<(Seq<EntityModel>, int), DecodeError>((
            ms.skip(i),
            p + s_enc_entities_from(ms, i).len(),
        )),
    decreases ms.len() - i,
{
    let e = s_enc_entities_from(ms, i);
    if i == ms.len() {
        assert(ms.skip(i) =~= Seq::<EntityModel>::empty());
    } else {
        let s0 = s_enc_entity(ms[i]);
        let s1 = s_enc_entities_from(ms, i + 1);
        assert(e == s0 + s1);
        lemma_subrange_shift(b, p, 0, s0.len() as int, e);
        assert(e.subrange(0, s0.len() as int) =~= s0);
        lemma_rt_entity(b, p, ms[i]);
        lemma_subrange_shift(b, p, s0.len() as int, e.len() as int, e);
        assert(e.subrange(s0.len() as int, e.len() as int) =~= s1);
        lemma_rt_entities(b, p + s0.len(), ms, i + 1);
        assert(seq![ms[i]] + ms.skip(i + 1) =~= ms.skip(i));
    }
}

#[verifier::spinoff_prover]
#[verifier::rlimit(100)]
proof fn lemma_rt_nlu_tail(b: Seq<u8>, p: int, m: NluModel)
    requires
        0 <= p,
        wf_nlu(m),
        p + s_enc_nlu_tail(m).len() <= b.len(),
        b.subrange(p, p + s_enc_nlu_tail(m).len()) == s_enc_nlu_tail(m),
    ensures
        s_dec_nlu_tail(b, p, m.language) == Ok::<(NluModel, int), DecodeError>((
            m,
            p + s_enc_nlu_tail(m).len(),
        )),
{
    reveal(s_enc_nlu_tail);
    reveal(s_dec_nlu_tail);
    reveal(s_dec_nlu_tail2);
    reveal_strlit("intents");
    reveal_strlit("entities");
    assert(is_ascii("intents"));
    assert(is_ascii("entities"));
    lemma_ascii_bytes_len("intents");
    lemma_ascii_bytes_len("entities");
    let s3 = s_enc_str("intents".spec_bytes());
    let s4 = s_enc_arrhdr(m.intents.len() as int);
    let s5 = s_enc_intents_from(m.intents, 0);
    let s6 = s_enc_str("entities".spec_bytes());
    let s7 = s_enc_arrhdr(m.entities.len() as int);
    let s8 = s_enc_entities_from(m.entities, 0);
    let e = s_enc_nlu_tail(m);
    let q1 = s3.len() as int;
    let q2 = q1 + s4.len() as int;
    let q3 = q2 + s5.len() as int;
    let q4 = q3 + s6.len() as int;
    let q5 = q4 + s7.len() as int;
    let q6 = q5 + s8.len() as int;
    assert(e.len() == q6);
    lemma_subrange_shift(b, p, 0, q1, e);
    assert(e.subrange(0, q1) =~= s3);
    lemma_rt_str(b, p, "intents".spec_bytes());
    lemma_subrange_shift(b, p, q1, q2, e);
    assert(e.subrange(q1, q2) =~= s4);
    lemma_rt_arrhdr(b, p + q1, m.intents.len() as int);
    lemma_subrange_shift(b, p, q2, q3, e);
    assert(e.subrange(q2, q3) =~= s5);
    lemma_rt_intents(b, p + q2, m.intents, 0);
    assert(m.intents.skip(0) =~= m.intents);
    lemma_subrange_shift(b, p, q3, q4, e);
    assert(e.subrange(q3, q4) =~= s6);
    lemma_rt_str(b, p + q3, "entities".spec_bytes());
    lemma_subrange_shift(b, p, q4, q5, e);
    assert(e.subrange(q4, q5) =~= s7);
    lemma_rt_arrhdr(b, p + q4, m.entities.len() as int);
    lemma_subrange_shift(b, p, q5, q6, e);
    assert(e.subrange(q5, q6) =~= s8);
    lemma_rt_entities(b, p + q5, m.entities, 0);
    assert(m.entities.skip(0) =~= m.entities);
}

#[verifier::spinoff_prover]
#[verifier::rlimit(100)]
pub proof fn lemma_rt_nlu(b: Seq<u8>, p: int, m: NluModel)
    requires
        0 <= p,
        wf_nlu(m),
        p + s_enc_nlu(m).len() <= b.len(),
        b.subrange(p, p + s_enc_nlu(m).len()) == s_enc_nlu(m),
    ensures
        s_dec_nlu(b, p) == Ok::<(NluModel, int), DecodeError>((m, p + s_enc_nlu(m).len())),
{
    reveal_strlit("language");
    assert(is_ascii("language"));
    lemma_ascii_bytes_len("language");
    let e = s_enc_nlu(m);
    let s0 = s_enc_maphdr(3);
    let s1 = s_enc_str("language".spec_bytes());
    let s2 = s_enc_str(m.language);
    let tail = s_enc_nlu_tail(m);
    let p1 = s0.len() as int;
    let p2 = p1 + s1.len() as int;
    let p3 = p2 + s2.len() as int;
    let p4 = p3 + tail.len() as int;
    assert(e.len() == p4);
    lemma_subrange_shift(b, p, 0, p1, e);
    assert(e.subrange(0, p1) =~= s0);
    lemma_rt_maphdr(b, p, 3);
    lemma_subrange_shift(b, p, p1, p2, e);
    assert(e.subrange(p1, p2) =~= s1);
    lemma_rt_str(b, p + p1, "language".spec_bytes());
    lemma_subrange_shift(b, p, p2, p3, e);
    assert(e.subrange(p2, p3) =~= s2);
    lemma_rt_str(b, p + p2, m.language);
    lemma_subrange_shift(b, p, p3, p4, e);
    assert(e.subrange(p3, p4) =~= tail);
    lemma_rt_nlu_tail(b, p + p3, m);
}

#[verifier::spinoff_prover]
#[verifier::rlimit(100)]
pub proof fn lemma_rt_nlus(b: Seq<u8>, p: int, ms: Seq<NluModel>, i: int)
    requires
        0 <= p,
        0 <= i <= ms.len(),
        forall|j: int| 0 <= j < ms.len() ==> wf_nlu(#[trigger] ms[j]),
        p + s_enc_nlus_from(ms, i).len() <= b.len(),
        b.subrange(p, p + s_enc_nlus_from(ms, i).len()) == s_enc_nlus_from(ms, i),
    ensures
        s_dec_nlus(b, p, (ms.len() - i) as nat) == Ok::<(Seq<NluModel>, int), DecodeError>((
            ms.skip(i),
            p + s_enc_nlus_from(ms, i).len(),
        )),
    decreases ms.len() - i,
{
    let e = s_enc_nlus_from(ms, i);
    if i == ms.len() {
        assert(ms.skip(i) =~= Seq::<NluModel>::empty());
    } else {
        let s0 = s_enc_nlu(ms[i]);
        let s1 = s_enc_nlus_from(ms, i + 1);
        assert(e == s0 + s1);
        lemma_subrange_shift(b, p, 0, s0.len() as int, e);
        assert(e.subrange(0, s0.len() as int) =~= s0);
        lemma_rt_nlu(b, p, ms[i]);
        lemma_subrange_shift(b, p, s0.len() as int, e.len() as int, e);
        assert(e.subrange(s0.len() as int, e.len() as int) =~= s1);
        lemma_rt_nlus(b, p + s0.len(), ms, i + 1);
        assert(seq![ms[i]] + ms.skip(i + 1) =~= ms.skip(i));
    }
}

/// The codec round trip for declarations: decoding the encoding of any
/// well-formed register-intents message finds the same skill id and the same
/// bundles, so a decoded message that is re-encoded decodes the same again.
#[verifier::spinoff_prover]
#[verifier::rlimit(100)]
pub proof fn lemma_rt_register_intents(b: Seq<u8>, p: int, skill_id: Seq<u8>, ds: Seq<NluModel>)
    requires
        0 <= p,
        wf_register_intents(skill_id, ds),
        p + s_enc_register_intents(skill_id, ds).len() <= b.len(),
        b.subrange(p, p + s_enc_register_intents(skill_id, ds).len()) == s_enc_register_intents(
            skill_id,
            ds,
        ),
    ensures
        s_dec_register_intents(b, p) == Ok::<((Seq<u8>, Seq<NluModel>), int), DecodeError>((
            (skill_id, ds),
            p + s_enc_register_intents(skill_id, ds).len(),
        )),
{
    reveal_strlit("skill_id");
    reveal_strlit("nlu_data");
    assert(is_ascii("skill_id"));
    assert(is_ascii("nlu_data"));
    lemma_ascii_bytes_len("skill_id");
    lemma_ascii_bytes_len("nlu_data");
    let e = s_enc_register_intents(skill_id, ds);
    let s0 = s_enc_maphdr(2);
    let s1 = s_enc_str("skill_id".spec_bytes());
    let s2 = s_enc_str(skill_id);
    let s3 = s_enc_str("nlu_data".spec_bytes());
    let s4 = s_enc_arrhdr(ds.len() as int);
    let s5 = s_enc_nlus_from(ds, 0);
    let p1 = s0.len() as int;
    let p2 = p1 + s1.len() as int;
    let p3 = p2 + s2.len() as int;
    let p4 = p3 + s3.len() as int;
    let p5 = p4 + s4.len() as int;
    let p6 = p5 + s5.len() as int;
    assert(e =~= s0 + s1 + s2 + s3 + (s4 + s5));
    assert(e.len() == p6);
    lemma_subrange_shift(b, p, 0, p1, e);
    assert(e.subrange(0, p1) =~= s0);
    lemma_rt_maphdr(b, p, 2);
    lemma_subrange_shift(b, p, p1, p2, e);
    assert(e.subrange(p1, p2) =~= s1);
    lemma_rt_str(b, p + p1, "skill_id".spec_bytes());
    lemma_subrange_shift(b, p, p2, p3, e);
    assert(e.subrange(p2, p3) =~= s2);
    lemma_rt_str(b, p + p2, skill_id);
    lemma_subrange_shift(b, p, p3, p4, e);
    assert(e.subrange(p3, p4) =~= s3);
    lemma_rt_str(b, p + p3, "nlu_data".spec_bytes());
    lemma_subrange_shift(b, p, p4, p5, e);
    assert(e.subrange(p4, p5) =~= s4);
    lemma_rt_arrhdr(b, p + p4, ds.len() as int);
    lemma_subrange_shift(b, p, p5, p6, e);
    assert(e.subrange(p5, p6) =~= s5);
    lemma_rt_nlus(b, p + p5, ds, 0);
    assert(ds.skip(0) =~= ds);
}

}
