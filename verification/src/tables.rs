//! The two correlation tables: pending answerability probes and pending skill
//! invocations.  Each maps a request id to the waiting caller's reply slot.
//! An id lives in at most one table, and taking it removes it, so a slot is
//! consumed at most once.

use vstd::prelude::*;
use std::collections::HashMap;

verus! {

broadcast use vstd::std_specs::hash::group_hash_axioms;

/// The pair of correlation tables.  `P` is the reply slot of an answerability
/// probe (it will receive a confidence value), `R` the reply slot of a skill
/// invocation (it will receive the capabilities and an inner acknowledgement
/// slot).
pub struct Correlations<P, R> {
    probes: HashMap<u64, P>,
    invocations: HashMap<u64, R>,
}

impl<P, R> Correlations<P, R> {
    /// The pending probes, as a map from request id to slot.
    pub closed spec fn probes(self) -> Map<u64, P> {
        self.probes@
    }

    /// The pending invocations, as a map from request id to slot.
    pub closed spec fn invocations(self) -> Map<u64, R> {
        self.invocations@
    }

    /// No request id is registered in both tables at once.
    pub open spec fn wf(self) -> bool {
        self.probes().dom().disjoint(self.invocations().dom())
    }

    pub fn new() -> (r: Correlations<P, R>)
        ensures
            r.probes() == Map::<u64, P>::empty(),
            r.invocations() == Map::<u64, R>::empty(),
            r.wf(),
    {
        Correlations { probes: HashMap::new(), invocations: HashMap::new() }
    }

    /// Registers a probe waiter under a fresh id.  Any stale entry left under
    /// the same id in the other table (possible only after the id counter has
    /// wrapped) is pruned, so the exclusivity invariant is unconditional.
    pub fn insert_probe(&mut self, id: u64, slot: P)
        requires
            old(self).wf(),
        ensures
            final(self).wf(),
            final(self).probes() == old(self).probes().insert(id, slot),
            final(self).invocations() == old(self).invocations().remove(id),
    {
        self.invocations.remove(&id);
        self.probes.insert(id, slot);
        proof {
            assert(self.probes().dom() =~= old(self).probes().dom().insert(id));
            assert(self.invocations().dom() =~= old(self).invocations().dom().remove(id));
        }
    }

    /// Registers an invocation waiter under a fresh id; see `insert_probe`.
    pub fn insert_invocation(&mut self, id: u64, slot: R)
        requires
            old(self).wf(),
        ensures
            final(self).wf(),
            final(self).invocations() == old(self).invocations().insert(id, slot),
            final(self).probes() == old(self).probes().remove(id),
    {
        self.probes.remove(&id);
        self.invocations.insert(id, slot);
        proof {
            assert(self.invocations().dom() =~= old(self).invocations().dom().insert(id));
            assert(self.probes().dom() =~= old(self).probes().dom().remove(id));
        }
    }

    /// Atomic remove-and-return of a probe waiter.  A second take of the same
    /// id finds nothing.
    pub fn take_probe(&mut self, id: u64) -> (r: Option<P>)
        requires
            old(self).wf(),
        ensures
            final(self).wf(),
            final(self).probes() == old(self).probes().remove(id),
            final(self).invocations() == old(self).invocations(),
            r == (if old(self).probes().contains_key(id) {
                Some(old(self).probes()[id])
            } else {
                None::<P>
            }),
    {
        let r = self.probes.remove(&id);
        proof {
            assert(self.probes().dom() =~= old(self).probes().dom().remove(id));
        }
        r
    }

    /// Atomic remove-and-return of an invocation waiter.
    pub fn take_invocation(&mut self, id: u64) -> (r: Option<R>)
        requires
            old(self).wf(),
        ensures
            final(self).wf(),
            final(self).invocations() == old(self).invocations().remove(id),
            final(self).probes() == old(self).probes(),
            r == (if old(self).invocations().contains_key(id) {
                Some(old(self).invocations()[id])
            } else {
                None::<R>
            }),
    {
        let r = self.invocations.remove(&id);
        proof {
            assert(self.invocations().dom() =~= old(self).invocations().dom().remove(id));
        }
        r
    }
}

/// A request id appears in at most one correlation table, and once taken it
/// is gone: a well-formed table pair never holds an id twice, and removing an
/// id leaves a map in which a second lookup finds nothing.
pub proof fn lemma_id_single_use<P, R>(t: Correlations<P, R>, id: u64)
    requires
        t.wf(),
    ensures
        !(t.probes().contains_key(id) && t.invocations().contains_key(id)),
        !t.probes().remove(id).contains_key(id),
        !t.invocations().remove(id).contains_key(id),
{
    assert(t.probes().dom().disjoint(t.invocations().dom()));
    if t.probes().contains_key(id) && t.invocations().contains_key(id) {
        assert(t.probes().dom().contains(id) && t.invocations().dom().contains(id));
    }
}

}
