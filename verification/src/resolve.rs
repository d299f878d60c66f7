//! The notification resolver: classifies each entry of a batched
//! notification against the correlation tables, in input order.  A probe
//! reply whose id is pending is delivered to its waiter and answered `valid`;
//! an invocation reply whose id is pending hands the capabilities to its
//! waiter and stays open until the waiter reports a terminal code; an unknown
//! id is answered `bad-request`; standalone entries are collected for the
//! upper layer.  `finish_parts` then assembles the sub-responses, one per
//! non-standalone entry, in the same order.

use vstd::prelude::*;
use crate::Status;
use crate::spec_wire_code;
use crate::messages::NotificationItem;
use crate::messages::MsgNotification;
use crate::messages::NotificationData;
use crate::messages::ResponseItem;
use crate::tables::Correlations;

verus! {

/// One slot of the eventual reply: either already resolved, or waiting for
/// the invocation waiter registered under `request_id` to report a code.
#[derive(PartialEq, Eq, Structural, Clone, Copy, Debug)]
pub enum ResponsePart {
    Done(ResponseItem),
    Await { request_id: u64 },
}

/// What one notification resolves to.  `deliveries` are the probe waiters to
/// wake, each with the confidence bits; `awaits`, in order, are the
/// invocation waiters, each with the capabilities of its entry; `parts`
/// mirror the non-standalone entries in input order; `standalone` is the
/// batch to forward to the upper layer.
pub struct Resolution<P, R> {
    pub skill_id: Vec<u8>,
    pub deliveries: Vec<(P, u32)>,
    pub parts: Vec<ResponsePart>,
    pub awaits: Vec<(u64, R, Vec<Vec<u8>>)>,
    pub standalone: Vec<NotificationData>,
}

/// The resolver's state while walking the entries.
pub struct ResolutionModel<P, R> {
    pub deliveries: Seq<(P, u32)>,
    pub parts: Seq<ResponsePart>,
    pub awaits: Seq<(u64, R, Vec<Vec<u8>>)>,
    pub standalone: Seq<NotificationData>,
    pub probes: Map<u64, P>,
    pub invocations: Map<u64, R>,
}

/// How one entry advances the resolver's state.
pub open spec fn s_step<P, R>(m: ResolutionModel<P, R>, it: NotificationItem) -> ResolutionModel<
    P,
    R,
> {
    match it {
        NotificationItem::CanYouAnswer { request_id, confidence } => {
            if m.probes.contains_key(request_id) {
                ResolutionModel {
                    deliveries: m.deliveries.push((m.probes[request_id], confidence)),
                    parts: m.parts.push(
                        ResponsePart::Done(
                            ResponseItem::CanYouAnswer {
                                code: spec_wire_code(Status::Valid),
                                request_id,
                            },
                        ),
                    ),
                    probes: m.probes.remove(request_id),
                    awaits: m.awaits,
                    standalone: m.standalone,
                    invocations: m.invocations,
                }
            } else {
                ResolutionModel {
                    parts: m.parts.push(
                        ResponsePart::Done(
                            ResponseItem::CanYouAnswer {
                                code: spec_wire_code(Status::BadRequest),
                                request_id,
                            },
                        ),
                    ),
                    deliveries: m.deliveries,
                    awaits: m.awaits,
                    standalone: m.standalone,
                    probes: m.probes,
                    invocations: m.invocations,
                }
            }
        },
        NotificationItem::Requested { request_id, capabilities } => {
            if m.invocations.contains_key(request_id) {
                ResolutionModel {
                    parts: m.parts.push(ResponsePart::Await { request_id }),
                    awaits: m.awaits.push((request_id, m.invocations[request_id], capabilities)),
                    invocations: m.invocations.remove(request_id),
                    deliveries: m.deliveries,
                    standalone: m.standalone,
                    probes: m.probes,
                }
            } else {
                ResolutionModel {
                    parts: m.parts.push(
                        ResponsePart::Done(
                            ResponseItem::Requested {
                                code: spec_wire_code(Status::BadRequest),
                                request_id,
                            },
                        ),
                    ),
                    deliveries: m.deliveries,
                    awaits: m.awaits,
                    standalone: m.standalone,
                    probes: m.probes,
                    invocations: m.invocations,
                }
            }
        },
        NotificationItem::StandAlone { client_id, capabilities } => ResolutionModel {
            standalone: m.standalone.push(NotificationData { client_id, capabilities }),
            deliveries: m.deliveries,
            parts: m.parts,
            awaits: m.awaits,
            probes: m.probes,
            invocations: m.invocations,
        },
    }
}

/// The whole resolution of an entry list against the two tables.
pub open spec fn s_resolve<P, R>(
    probes: Map<u64, P>,
    invocations: Map<u64, R>,
    items: Seq<NotificationItem>,
) -> ResolutionModel<P, R>
    decreases items.len(),
{
    if items.len() == 0 {
        ResolutionModel {
            deliveries: Seq::empty(),
            parts: Seq::empty(),
            awaits: Seq::empty(),
            standalone: Seq::empty(),
            probes,
            invocations,
        }
    } else {
        s_step(s_resolve(probes, invocations, items.drop_last()), items.last())
    }
}

/// Resolves one batched notification against the correlation tables.
pub fn resolve_notification<P, R>(tables: &mut Correlations<P, R>, msg: MsgNotification) -> (r:
    Resolution<P, R>)
    requires
        old(tables).wf(),
    ensures
        final(tables).wf(),
        r.skill_id == msg.skill_id,
        ({
            let m = s_resolve(old(tables).probes(), old(tables).invocations(), msg.data@);
            &&& r.deliveries@ == m.deliveries
            &&& r.parts@ == m.parts
            &&& r.awaits@ == m.awaits
            &&& r.standalone@ == m.standalone
            &&& final(tables).probes() == m.probes
            &&& final(tables).invocations() == m.invocations
        }),
{
    let ghost init_p = tables.probes();
    let ghost init_i = tables.invocations();
    let ghost items = msg.data@;
    let mut data = msg.data;
    let total = data.len();
    let mut deliveries: Vec<(P, u32)> = Vec::new();
    let mut parts: Vec<ResponsePart> = Vec::new();
    let mut awaits: Vec<(u64, R, Vec<Vec<u8>>)> = Vec::new();
    let mut standalone: Vec<NotificationData> = Vec::new();
    let mut i: usize = 0;
    proof {
        assert(items.take(0) =~= Seq::<NotificationItem>::empty());
    }
    while data.len() > 0
        invariant
            tables.wf(),
            i + data@.len() == total,
            total == items.len(),
            data@ == items.skip(i as int),
            ({
                let m = s_resolve(init_p, init_i, items.take(i as int));
                &&& deliveries@ == m.deliveries
                &&& parts@ == m.parts
                &&& awaits@ == m.awaits
                &&& standalone@ == m.standalone
                &&& tables.probes() == m.probes
                &&& tables.invocations() == m.invocations
            }),
        decreases data@.len(),
    {
        let ghost pre = s_resolve(init_p, init_i, items.take(i as int));
        let it = data.remove(0);
        proof {
            assert(it == items[i as int]);
            assert(data@ =~= items.skip(i + 1));
            assert(items.take(i + 1).drop_last() =~= items.take(i as int));
            assert(items.take(i + 1).last() == items[i as int]);
            assert(s_resolve(init_p, init_i, items.take(i + 1)) == s_step(pre, it));
        }
        match it {
            NotificationItem::CanYouAnswer { request_id, confidence } => {
                match tables.take_probe(request_id) {
                    Some(slot) => {
                        deliveries.push((slot, confidence));
                        parts.push(
                            ResponsePart::Done(
                                ResponseItem::CanYouAnswer {
                                    code: Status::Valid.wire_code(),
                                    request_id,
                                },
                            ),
                        );
                    },
                    None => {
                        parts.push(
                            ResponsePart::Done(
                                ResponseItem::CanYouAnswer {
                                    code: Status::BadRequest.wire_code(),
                                    request_id,
                                },
                            ),
                        );
                        proof {
                            assert(tables.probes() =~= pre.probes);
                        }
                    },
                }
            },
            NotificationItem::Requested { request_id, capabilities } => {
                match tables.take_invocation(request_id) {
                    Some(slot) => {
                        parts.push(ResponsePart::Await { request_id });
                        awaits.push((request_id, slot, capabilities));
                    },
                    None => {
                        parts.push(
                            ResponsePart::Done(
                                ResponseItem::Requested {
                                    code: Status::BadRequest.wire_code(),
                                    request_id,
                                },
                            ),
                        );
                        proof {
                            assert(tables.invocations() =~= pre.invocations);
                        }
                    },
                }
            },
            NotificationItem::StandAlone { client_id, capabilities } => {
                standalone.push(NotificationData { client_id, capabilities });
            },
        }
        i += 1;
    }
    proof {
        assert(items.take(i as int) =~= items);
    }
    Resolution { skill_id: msg.skill_id, deliveries, parts, awaits, standalone }
}

/// How many parts still wait for a terminal code.
pub open spec fn count_awaits(parts: Seq<ResponsePart>) -> nat
    decreases parts.len(),
{
    if parts.len() == 0 {
        0
    } else {
        count_awaits(parts.drop_last()) + (if parts.last() is Await {
            1nat
        } else {
            0nat
        })
    }
}

/// The assembled sub-responses: resolved parts keep their item, and the j-th
/// waiting part becomes a `Requested` sub-response carrying the j-th code.
pub open spec fn s_finish(parts: Seq<ResponsePart>, codes: Seq<u16>) -> Seq<ResponseItem>
    decreases parts.len(),
{
    if parts.len() == 0 {
        Seq::empty()
    } else {
        let rest = s_finish(parts.drop_last(), codes);
        match parts.last() {
            ResponsePart::Done(d) => rest.push(d),
            ResponsePart::Await { request_id } => rest.push(
                ResponseItem::Requested {
                    code: codes[count_awaits(parts.drop_last()) as int],
                    request_id,
                },
            ),
        }
    }
}

/// Joins the resolved parts with the codes the invocation waiters reported,
/// in order, one sub-response per part.
pub fn finish_parts(parts: &Vec<ResponsePart>, codes: &Vec<u16>) -> (r: Vec<ResponseItem>)
    requires
        codes@.len() == count_awaits(parts@),
    ensures
        r@ == s_finish(parts@, codes@),
        r@.len() == parts@.len(),
{
    proof {
        lemma_count_awaits_bound(parts@);
        lemma_finish_len(parts@, codes@);
    }
    let cl = codes.len();
    let mut out: Vec<ResponseItem> = Vec::new();
    let mut j: usize = 0;
    let mut i: usize = 0;
    proof {
        assert(parts@.take(0) =~= Seq::<ResponsePart>::empty());
        assert(out@ =~= s_finish(parts@.take(0), codes@));
    }
    while i < parts.len()
        invariant
            i <= parts@.len(),
            codes@.len() == count_awaits(parts@),
            j == count_awaits(parts@.take(i as int)),
            j <= cl,
            cl == codes@.len(),
            out@ == s_finish(parts@.take(i as int), codes@),
        decreases parts@.len() - i,
    {
        proof {
            assert(parts@.take(i + 1).drop_last() =~= parts@.take(i as int));
            assert(parts@.take(i + 1).last() == parts@[i as int]);
            lemma_count_awaits_monotone(parts@, i + 1);
        }
        match &parts[i] {
            ResponsePart::Done(d) => {
                out.push(*d);
            },
            ResponsePart::Await { request_id } => {
                out.push(ResponseItem::Requested { code: codes[j], request_id: *request_id });
                j += 1;
            },
        }
        i += 1;
    }
    proof {
        assert(parts@.take(parts@.len() as int) =~= parts@);
    }
    out
}

/// No prefix waits for more codes than the whole list.
pub proof fn lemma_count_awaits_monotone(parts: Seq<ResponsePart>, i: int)
    requires
        0 <= i <= parts.len(),
    ensures
        count_awaits(parts.take(i)) <= count_awaits(parts),
    decreases parts.len() - i,
{
    if i == parts.len() {
        assert(parts.take(i) =~= parts);
    } else {
        lemma_count_awaits_monotone(parts, i + 1);
        assert(parts.take(i + 1).drop_last() =~= parts.take(i));
    }
}

pub proof fn lemma_count_awaits_bound(parts: Seq<ResponsePart>)
    ensures
        count_awaits(parts) <= parts.len(),
    decreases parts.len(),
{
    if parts.len() > 0 {
        lemma_count_awaits_bound(parts.drop_last());
    }
}

/// Assembly keeps one sub-response per part.
pub proof fn lemma_finish_len(parts: Seq<ResponsePart>, codes: Seq<u16>)
    ensures
        s_finish(parts, codes).len() == parts.len(),
    decreases parts.len(),
{
    if parts.len() > 0 {
        lemma_finish_len(parts.drop_last(), codes);
    }
}

}

verus! {

pub open spec fn is_standalone(it: NotificationItem) -> bool {
    it is StandAlone
}

/// The non-standalone entries, in input order.
pub open spec fn non_standalone_items(items: Seq<NotificationItem>) -> Seq<NotificationItem>
    decreases items.len(),
{
    if items.len() == 0 {
        Seq::empty()
    } else {
        let rest = non_standalone_items(items.drop_last());
        if is_standalone(items.last()) {
            rest
        } else {
            rest.push(items.last())
        }
    }
}

pub open spec fn item_request_id(it: NotificationItem) -> u64 {
    match it {
        NotificationItem::CanYouAnswer { request_id, .. } => request_id,
        NotificationItem::Requested { request_id, .. } => request_id,
        NotificationItem::StandAlone { .. } => 0,
    }
}

pub open spec fn item_confidence(it: NotificationItem) -> u32 {
    match it {
        NotificationItem::CanYouAnswer { confidence, .. } => confidence,
        _ => 0,
    }
}

pub open spec fn item_capabilities(it: NotificationItem) -> Vec<Vec<u8>> {
    match it {
        NotificationItem::Requested { capabilities, .. } => capabilities,
        NotificationItem::StandAlone { capabilities, .. } => capabilities,
        _ => arbitrary(),
    }
}

/// A delivery is the registered probe waiter for some probe-reply entry,
/// carrying exactly that entry's confidence.
pub open spec fn explains_delivery<P>(it: NotificationItem, p0: Map<u64, P>, d: (P, u32)) -> bool {
    it is CanYouAnswer && p0.contains_key(item_request_id(it)) && d == (
        p0[item_request_id(it)],
        item_confidence(it),
    )
}

pub open spec fn delivery_explained<P>(
    items: Seq<NotificationItem>,
    p0: Map<u64, P>,
    d: (P, u32),
) -> bool {
    exists|i: int| 0 <= i < items.len() && #[trigger] explains_delivery(items[i], p0, d)
}

/// An await hands the registered invocation waiter for some invocation-reply
/// entry exactly that entry's capabilities.
pub open spec fn explains_await<R>(
    it: NotificationItem,
    i0: Map<u64, R>,
    a: (u64, R, Vec<Vec<u8>>),
) -> bool {
    it is Requested && i0.contains_key(item_request_id(it)) && a == (
        item_request_id(it),
        i0[item_request_id(it)],
        item_capabilities(it),
    )
}

pub open spec fn await_explained<R>(
    items: Seq<NotificationItem>,
    i0: Map<u64, R>,
    a: (u64, R, Vec<Vec<u8>>),
) -> bool {
    exists|i: int| 0 <= i < items.len() && #[trigger] explains_await(items[i], i0, a)
}

/// Resolution only ever removes table entries: whatever stays in a table
/// was registered there before, under the same slot.
pub proof fn lemma_resolve_shrinks<P, R>(
    p0: Map<u64, P>,
    i0: Map<u64, R>,
    items: Seq<NotificationItem>,
)
    ensures
        forall|k: u64| #[trigger] s_resolve(p0, i0, items).probes.contains_key(k)
            ==> p0.contains_key(k) && s_resolve(p0, i0, items).probes[k] == p0[k],
        forall|k: u64| #[trigger] s_resolve(p0, i0, items).invocations.contains_key(k)
            ==> i0.contains_key(k) && s_resolve(p0, i0, items).invocations[k] == i0[k],
    decreases items.len(),
{
    if items.len() > 0 {
        lemma_resolve_shrinks(p0, i0, items.drop_last());
        let m0 = s_resolve(p0, i0, items.drop_last());
        let m = s_resolve(p0, i0, items);
        assert forall|k: u64| #[trigger] m.probes.contains_key(k) implies p0.contains_key(k)
            && m.probes[k] == p0[k] by {
            assert(m0.probes.contains_key(k));
        };
        assert forall|k: u64| #[trigger] m.invocations.contains_key(k) implies i0.contains_key(k)
            && m.invocations[k] == i0[k] by {
            assert(m0.invocations.contains_key(k));
        };
    }
}

/// Every confidence value a probe waiter is woken with is the confidence of
/// a matching probe-reply entry of the notification, delivered to the waiter
/// that was registered under that entry's request id.
pub proof fn lemma_probe_confidence<P, R>(
    p0: Map<u64, P>,
    i0: Map<u64, R>,
    items: Seq<NotificationItem>,
)
    ensures
        forall|j: int|
            0 <= j < s_resolve(p0, i0, items).deliveries.len() ==> delivery_explained(
                items,
                p0,
                #[trigger] s_resolve(p0, i0, items).deliveries[j],
            ),
    decreases items.len(),
{
    if items.len() > 0 {
        let m0 = s_resolve(p0, i0, items.drop_last());
        let m = s_resolve(p0, i0, items);
        lemma_probe_confidence(p0, i0, items.drop_last());
        lemma_resolve_shrinks(p0, i0, items.drop_last());
        assert forall|j: int| 0 <= j < m.deliveries.len() implies delivery_explained(
            items,
            p0,
            #[trigger] m.deliveries[j],
        ) by {
            if j < m0.deliveries.len() {
                assert(delivery_explained(items.drop_last(), p0, m0.deliveries[j]));
                let i = choose|i: int|
                    0 <= i < items.drop_last().len() && #[trigger] explains_delivery(
                        items.drop_last()[i],
                        p0,
                        m0.deliveries[j],
                    );
                assert(items[i] == items.drop_last()[i]);
                assert(explains_delivery(items[i], p0, m.deliveries[j]));
            } else {
                let last = items.last();
                assert(m.deliveries[j] == (m0.probes[item_request_id(last)], item_confidence(
                    last,
                )));
                assert(p0.contains_key(item_request_id(last)));
                assert(explains_delivery(items[items.len() - 1], p0, m.deliveries[j]));
            }
        };
    }
}

/// Every capability batch an invocation waiter receives is the batch of a
/// matching invocation-reply entry, handed to the waiter registered under
/// that entry's request id.
pub proof fn lemma_activation_capabilities<P, R>(
    p0: Map<u64, P>,
    i0: Map<u64, R>,
    items: Seq<NotificationItem>,
)
    ensures
        forall|j: int|
            0 <= j < s_resolve(p0, i0, items).awaits.len() ==> await_explained(
                items,
                i0,
                #[trigger] s_resolve(p0, i0, items).awaits[j],
            ),
    decreases items.len(),
{
    if items.len() > 0 {
        let m0 = s_resolve(p0, i0, items.drop_last());
        let m = s_resolve(p0, i0, items);
        lemma_activation_capabilities(p0, i0, items.drop_last());
        lemma_resolve_shrinks(p0, i0, items.drop_last());
        assert forall|j: int| 0 <= j < m.awaits.len() implies await_explained(
            items,
            i0,
            #[trigger] m.awaits[j],
        ) by {
            if j < m0.awaits.len() {
                assert(await_explained(items.drop_last(), i0, m0.awaits[j]));
                let i = choose|i: int|
                    0 <= i < items.drop_last().len() && #[trigger] explains_await(
                        items.drop_last()[i],
                        i0,
                        m0.awaits[j],
                    );
                assert(items[i] == items.drop_last()[i]);
                assert(explains_await(items[i], i0, m.awaits[j]));
            } else {
                let last = items.last();
                match last {
                    NotificationItem::Requested { request_id, capabilities } => {
                        assert(m0.invocations.contains_key(request_id));
                        assert(i0.contains_key(request_id) && m0.invocations[request_id]
                            == i0[request_id]);
                        assert(m.awaits[j] == (request_id, m0.invocations[request_id],
                        capabilities));
                        assert(explains_await(items[items.len() - 1], i0, m.awaits[j]));
                    },
                    _ => {
                        assert(false);
                    },
                }
            }
        };
    }
}

/// The sub-response slot a non-standalone entry is answered through.
pub open spec fn part_for(it: NotificationItem, part: ResponsePart) -> bool {
    match it {
        NotificationItem::CanYouAnswer { request_id, .. } => part matches ResponsePart::Done(
            ResponseItem::CanYouAnswer { request_id: rid, .. },
        ) && rid == request_id,
        NotificationItem::Requested { request_id, .. } => (part matches ResponsePart::Await {
            request_id: rid,
        } && rid == request_id) || (part matches ResponsePart::Done(
            ResponseItem::Requested { request_id: rid, .. },
        ) && rid == request_id),
        NotificationItem::StandAlone { .. } => false,
    }
}

/// With no standalone entries in play, the reply has exactly one sub-response
/// per non-standalone entry, in input order, each answering that entry's
/// request id.
pub proof fn lemma_parts_in_order<P, R>(
    p0: Map<u64, P>,
    i0: Map<u64, R>,
    items: Seq<NotificationItem>,
)
    ensures
        ({
            let m = s_resolve(p0, i0, items);
            let ns = non_standalone_items(items);
            &&& m.parts.len() == ns.len()
            &&& forall|j: int| 0 <= j < ns.len() ==> part_for(ns[j], #[trigger] m.parts[j])
        }),
    decreases items.len(),
{
    let m = s_resolve(p0, i0, items);
    let ns = non_standalone_items(items);
    if items.len() > 0 {
        let m0 = s_resolve(p0, i0, items.drop_last());
        let ns0 = non_standalone_items(items.drop_last());
        lemma_parts_in_order(p0, i0, items.drop_last());
        let last = items.last();
        match last {
            NotificationItem::CanYouAnswer { request_id, .. } => {
                assert(!is_standalone(last));
                assert(ns =~= ns0.push(last));
                if m0.probes.contains_key(request_id) {
                    assert(m.parts == m0.parts.push(
                        ResponsePart::Done(
                            ResponseItem::CanYouAnswer {
                                code: spec_wire_code(Status::Valid),
                                request_id,
                            },
                        ),
                    ));
                } else {
                    assert(m.parts == m0.parts.push(
                        ResponsePart::Done(
                            ResponseItem::CanYouAnswer {
                                code: spec_wire_code(Status::BadRequest),
                                request_id,
                            },
                        ),
                    ));
                }
                assert(part_for(last, m.parts.last()));
                assert(forall|j: int| 0 <= j < ns0.len() ==> ns[j] == ns0[j]);
            },
            NotificationItem::Requested { request_id, .. } => {
                assert(!is_standalone(last));
                assert(ns =~= ns0.push(last));
                if m0.invocations.contains_key(request_id) {
                    assert(m.parts == m0.parts.push(ResponsePart::Await { request_id }));
                } else {
                    assert(m.parts == m0.parts.push(
                        ResponsePart::Done(
                            ResponseItem::Requested {
                                code: spec_wire_code(Status::BadRequest),
                                request_id,
                            },
                        ),
                    ));
                }
                assert(part_for(last, m.parts.last()));
                assert(forall|j: int| 0 <= j < ns0.len() ==> ns[j] == ns0[j]);
            },
            NotificationItem::StandAlone { .. } => {
                assert(ns == ns0);
                assert(m.parts == m0.parts);
            },
        }
    }
}

}

verus! {

/// What the j-th sub-response owes the j-th part: a resolved part keeps its
/// item, a waiting part becomes an invocation sub-response under its id.
pub open spec fn finished_part_for(part: ResponsePart, item: ResponseItem) -> bool {
    match part {
        ResponsePart::Done(d) => item == d,
        ResponsePart::Await { request_id } => item matches ResponseItem::Requested {
            request_id: rid,
            ..
        } && rid == request_id,
    }
}

/// Assembly answers the parts one for one, in order.
pub proof fn lemma_finish_in_order(parts: Seq<ResponsePart>, codes: Seq<u16>)
    ensures
        s_finish(parts, codes).len() == parts.len(),
        forall|j: int|
            0 <= j < parts.len() ==> finished_part_for(parts[j], #[trigger] s_finish(
                parts,
                codes,
            )[j]),
    decreases parts.len(),
{
    if parts.len() > 0 {
        lemma_finish_in_order(parts.drop_last(), codes);
        assert forall|j: int| 0 <= j < parts.len() implies finished_part_for(
            parts[j],
            #[trigger] s_finish(parts, codes)[j],
        ) by {
            if j < parts.len() - 1 {
                assert(parts.drop_last()[j] == parts[j]);
                assert(s_finish(parts, codes)[j] == s_finish(parts.drop_last(), codes)[j]);
            } else {
                assert(parts[j] == parts.last());
            }
        };
    }
}

}

verus! {

/// The ids of the waiting parts, in order.
pub open spec fn await_ids(parts: Seq<ResponsePart>) -> Seq<u64>
    decreases parts.len(),
{
    if parts.len() == 0 {
        Seq::empty()
    } else {
        let rest = await_ids(parts.drop_last());
        match parts.last() {
            ResponsePart::Await { request_id } => rest.push(request_id),
            ResponsePart::Done(_) => rest,
        }
    }
}

/// A resolution's parts wait for exactly one code per await, and the waiting
/// parts carry the awaits' request ids, in order: the codes a caller collects
/// from the awaits, one each, are what `finish_parts` asks for.
pub proof fn lemma_awaits_match_parts<P, R>(
    p0: Map<u64, P>,
    i0: Map<u64, R>,
    items: Seq<NotificationItem>,
)
    ensures
        count_awaits(s_resolve(p0, i0, items).parts) == s_resolve(p0, i0, items).awaits.len(),
        await_ids(s_resolve(p0, i0, items).parts) == s_resolve(p0, i0, items).awaits.map_values(
            |a: (u64, R, Vec<Vec<u8>>)| a.0,
        ),
    decreases items.len(),
{
    let m = s_resolve(p0, i0, items);
    let ids = |a: (u64, R, Vec<Vec<u8>>)| a.0;
    if items.len() == 0 {
        assert(await_ids(m.parts) =~= m.awaits.map_values(ids));
    } else {
        lemma_awaits_match_parts(p0, i0, items.drop_last());
        let m0 = s_resolve(p0, i0, items.drop_last());
        match items.last() {
            NotificationItem::Requested { request_id, .. } => {
                if m0.invocations.contains_key(request_id) {
                    assert(m.parts == m0.parts.push(ResponsePart::Await { request_id }));
                    assert(m.parts.drop_last() =~= m0.parts);
                    assert(m.awaits.map_values(ids) =~= m0.awaits.map_values(ids).push(
                        request_id,
                    ));
                } else {
                    assert(m.parts.drop_last() =~= m0.parts);
                }
            },
            NotificationItem::CanYouAnswer { request_id, .. } => {
                if m0.probes.contains_key(request_id) {
                    assert(m.parts.drop_last() =~= m0.parts);
                } else {
                    assert(m.parts.drop_last() =~= m0.parts);
                }
            },
            NotificationItem::StandAlone { .. } => {
                assert(m.parts == m0.parts);
            },
        }
    }
}

}
