//! The per-language declaration bundle a skill registers, and the conversion
//! from the on-disk declaration tables into it.  The on-disk form groups
//! intents into named scopes; only the scope named `main` is taken, any
//! other is ignored.  Text travels as UTF-8 bytes; maps travel as entry
//! lists in their on-disk order.

use vstd::prelude::*;
use vstd::string::StringSliceAdditionalSpecFns;
use vstd::string::is_ascii;
use crate::wire::bytes_eq;
use crate::wire::key_bytes;
use crate::wire::lemma_ascii_bytes_len;

verus! {

/// One example utterance of an intent.
pub struct NluDataIntentUtterance {
    pub text: Vec<u8>,
}

/// A slot binds a named parameter of an intent to an entity name.
pub struct NluDataSlot {
    pub name: Vec<u8>,
    pub entity: Vec<u8>,
}

/// A named class of user utterances a skill can handle.
pub struct NluDataIntent {
    pub name: Vec<u8>,
    pub utterances: Vec<NluDataIntentUtterance>,
    pub slots: Vec<NluDataSlot>,
}

/// A named value class, with its example data.
pub struct NluDataEntity {
    pub name: Vec<u8>,
    pub strict: bool,
    pub data: Vec<Vec<u8>>,
}

/// The declaration bundle for one language.
pub struct NluData {
    pub language: Vec<u8>,
    pub intents: Vec<NluDataIntent>,
    pub entities: Vec<NluDataEntity>,
}

/// One intent as declared on disk.
pub struct IntentData {
    pub utterances: Vec<Vec<u8>>,
    pub slots: Vec<(Vec<u8>, Vec<u8>)>,
}

/// One entity as declared on disk.
pub struct EntityData {
    pub data: Vec<Vec<u8>>,
}

/// One language's declaration tables as read from disk: scopes of intents,
/// and entities.
pub struct LangData {
    pub scopes: Vec<(Vec<u8>, Vec<(Vec<u8>, IntentData)>)>,
    pub entities: Vec<(Vec<u8>, EntityData)>,
}

/// `r` is the lifted form of the declared intent `i` under `name`: the same
/// utterances and the same slot bindings, in order.
pub open spec fn is_vap_of(i: IntentData, name: Vec<u8>, r: NluDataIntent) -> bool {
    &&& r.name == name
    &&& r.utterances@.len() == i.utterances@.len()
    &&& (forall|j: int|
        0 <= j < i.utterances@.len() ==> (#[trigger] r.utterances@[j]).text == i.utterances@[j])
    &&& r.slots@.len() == i.slots@.len()
    &&& (forall|j: int|
        0 <= j < i.slots@.len() ==> (#[trigger] r.slots@[j]).name == i.slots@[j].0
            && r.slots@[j].entity == i.slots@[j].1)
}

impl IntentData {
    /// Lifts a declared intent under its name: every utterance and every
    /// slot binding is carried over, in order.
    pub fn into_vap(self, name: Vec<u8>) -> (r: NluDataIntent)
        ensures
            is_vap_of(self, name, r),
    {
        let mut utterances: Vec<NluDataIntentUtterance> = Vec::new();
        let mut us = self.utterances;
        while us.len() > 0
            invariant
                utterances@.len() + us@.len() == self.utterances@.len(),
                us@ == self.utterances@.skip(utterances@.len() as int),
                forall|j: int|
                    0 <= j < utterances@.len() ==> (#[trigger] utterances@[j]).text
                        == self.utterances@[j],
            decreases us@.len(),
        {
            let u = us.remove(0);
            proof {
                assert(u == self.utterances@[utterances@.len() as int]);
                assert(us@ =~= self.utterances@.skip(utterances@.len() as int + 1));
            }
            utterances.push(NluDataIntentUtterance { text: u });
        }
        let mut slots: Vec<NluDataSlot> = Vec::new();
        let mut ss = self.slots;
        while ss.len() > 0
            invariant
                slots@.len() + ss@.len() == self.slots@.len(),
                ss@ == self.slots@.skip(slots@.len() as int),
                forall|j: int|
                    0 <= j < slots@.len() ==> (#[trigger] slots@[j]).name == self.slots@[j].0
                        && slots@[j].entity == self.slots@[j].1,
            decreases ss@.len(),
        {
            let (n, e) = ss.remove(0);
            proof {
                assert((n, e) == self.slots@[slots@.len() as int]);
                assert(ss@ =~= self.slots@.skip(slots@.len() as int + 1));
            }
            slots.push(NluDataSlot { name: n, entity: e });
        }
        NluDataIntent { name, utterances, slots }
    }
}

impl EntityData {
    /// Lifts a declared entity under its name; declared entities are never
    /// strict.
    pub fn into_vap(self, name: Vec<u8>) -> (r: NluDataEntity)
        ensures
            r.name == name,
            r.strict == false,
            r.data == self.data,
    {
        NluDataEntity { name, strict: false, data: self.data }
    }
}

/// The intent entries of the first scope named `main`; empty when no scope
/// carries that name.
pub open spec fn first_main_scope(scopes: Seq<(Vec<u8>, Vec<(Vec<u8>, IntentData)>)>) -> Seq<
    (Vec<u8>, IntentData),
>
    decreases scopes.len(),
{
    if scopes.len() == 0 {
        Seq::empty()
    } else if scopes[0].0@ == "main".spec_bytes() {
        scopes[0].1@
    } else {
        first_main_scope(scopes.drop_first())
    }
}

/// Whether some scope entry is named `main`.
pub open spec fn has_main_scope(scopes: Seq<(Vec<u8>, Vec<(Vec<u8>, IntentData)>)>) -> bool {
    exists|i: int| 0 <= i < scopes.len() && (#[trigger] scopes[i]).0@ == "main".spec_bytes()
}

impl LangData {
    /// Lifts one language's tables into its declaration bundle.  The intents
    /// of the first scope named `main` are taken, each under its declared
    /// name, in order; every entity is taken.  Without a `main` scope there
    /// is no bundle.
    pub fn into_nlu_data(self, language: Vec<u8>) -> (r: Option<NluData>)
        ensures
            r is Some <==> has_main_scope(self.scopes@),
            (match r {
                Some(d) => {
                    &&& d.language == language
                    &&& d.intents@.len() == first_main_scope(self.scopes@).len()
                    &&& (forall|j: int|
                        0 <= j < d.intents@.len() ==> is_vap_of(
                            first_main_scope(self.scopes@)[j].1,
                            first_main_scope(self.scopes@)[j].0,
                            #[trigger] d.intents@[j],
                        ))
                    &&& d.entities@.len() == self.entities@.len()
                    &&& (forall|j: int|
                        0 <= j < self.entities@.len() ==> (#[trigger] d.entities@[j]).name
                            == self.entities@[j].0 && d.entities@[j].strict == false
                            && d.entities@[j].data == self.entities@[j].1.data)
                },
                None => true,
            }),
    {
        proof {
            reveal_strlit("main");
            assert(is_ascii("main"));
        }
        let main_key = key_bytes("main");
        proof {
            broadcast use vstd::string::is_ascii_spec_bytes;

            lemma_ascii_bytes_len("main");
            assert(main_key@ =~= "main".spec_bytes());
        }
        let mut scopes = self.scopes;
        let total = scopes.len();
        let mut found: Option<Vec<(Vec<u8>, IntentData)>> = None;
        let mut k: usize = 0;
        while scopes.len() > 0 && found.is_none()
            invariant
                main_key@ == "main".spec_bytes(),
                k + scopes@.len() == total,
                total == self.scopes@.len(),
                scopes@ == self.scopes@.skip(k as int),
                found is None ==> forall|i: int|
                    0 <= i < k ==> (#[trigger] self.scopes@[i]).0@ != "main".spec_bytes(),
                found is None ==> first_main_scope(self.scopes@) == first_main_scope(
                    self.scopes@.skip(k as int),
                ),
                found matches Some(s) ==> has_main_scope(self.scopes@) && s@ == first_main_scope(
                    self.scopes@,
                ),
            decreases scopes@.len(),
        {
            let (name, scope) = scopes.remove(0);
            proof {
                assert((name, scope) == self.scopes@[k as int]);
                assert(scopes@ =~= self.scopes@.skip(k + 1));
            }
            let is_main = bytes_eq(&name, &main_key);
            proof {
                assert(name == self.scopes@[k as int].0);
            }
            proof {
                assert(self.scopes@.skip(k as int)[0] == self.scopes@[k as int]);
                assert(self.scopes@.skip(k as int).drop_first() =~= self.scopes@.skip(
                    k as int + 1,
                ));
            }
            if is_main {
                proof {
                    assert((self.scopes@[k as int]).0@ == "main".spec_bytes());
                    assert(first_main_scope(self.scopes@.skip(k as int)) == scope@);
                }
                found = Some(scope);
            }
            k += 1;
        }
        let scope = match found {
            Some(s) => s,
            None => {
                proof {
                    assert(!has_main_scope(self.scopes@)) by {
                        assert(self.scopes@.skip(k as int).len() == 0);
                        assert(forall|i: int|
                            0 <= i < self.scopes@.len() ==> (#[trigger] self.scopes@[i]).0@
                                != "main".spec_bytes());
                    };
                }
                return None;
            },
        };
        let ghost sm = first_main_scope(self.scopes@);
        let mut intents: Vec<NluDataIntent> = Vec::new();
        let mut entries = scope;
        while entries.len() > 0
            invariant
                intents@.len() + entries@.len() == sm.len(),
                entries@ == sm.skip(intents@.len() as int),
                forall|j: int|
                    0 <= j < intents@.len() ==> is_vap_of(
                        sm[j].1,
                        sm[j].0,
                        #[trigger] intents@[j],
                    ),
            decreases entries@.len(),
        {
            let (n, i) = entries.remove(0);
            proof {
                assert((n, i) == sm[intents@.len() as int]);
                assert(entries@ =~= sm.skip(intents@.len() as int + 1));
            }
            intents.push(i.into_vap(n));
        }
        let mut entities: Vec<NluDataEntity> = Vec::new();
        let mut es = self.entities;
        while es.len() > 0
            invariant
                entities@.len() + es@.len() == self.entities@.len(),
                es@ == self.entities@.skip(entities@.len() as int),
                forall|j: int|
                    0 <= j < entities@.len() ==> (#[trigger] entities@[j]).name
                        == self.entities@[j].0 && entities@[j].strict == false
                        && entities@[j].data == self.entities@[j].1.data,
            decreases es@.len(),
        {
            let (n, e) = es.remove(0);
            proof {
                assert((n, e) == self.entities@[entities@.len() as int]);
                assert(es@ =~= self.entities@.skip(entities@.len() as int + 1));
            }
            entities.push(e.into_vap(n));
        }
        Some(NluData { language, intents, entities })
    }
}

}
