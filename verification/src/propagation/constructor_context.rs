//! What a propagator is handed when it is added to the solver.

use vstd::prelude::*;
use crate::assignments::Assignments;
use crate::identifiers::{LocalId, PropagatorId, PropagatorVarId};
use crate::literal::Literal;
use crate::predicate::DomainId;
use crate::propagation::contexts::PropagationContext;
use crate::propagation::domain_events::{DomainEvents, IntDomainEvent};
use crate::propagation::watch_list::WatchListCP;

verus! {

/// The watchers that come to the lists of `x` when the first `k` of `vars`
/// are registered one after another, under the local ids from `offset` on.
pub open spec fn registrations(
    vars: Seq<DomainId>,
    offset: int,
    propagator: PropagatorId,
    x: DomainId,
    k: int,
) -> Seq<PropagatorVarId>
    decreases k,
{
    if k <= 0 {
        seq![]
    } else {
        let rest = registrations(vars, offset, propagator, x, k - 1);
        if vars[k - 1] == x {
            rest.push(PropagatorVarId { propagator, variable: LocalId((offset + k - 1) as u32) })
        } else {
            rest
        }
    }
}

/// [`PropagatorConstructorContext`] is used when adding propagators to the
/// solver. It represents a communication point between the solver and the
/// propagator. Propagators use it to register to domain changes of
/// variables, and may read the domains at the root through it.
pub struct PropagatorConstructorContext<'a> {
    watch_list: WatchListCP,
    propagator_id: PropagatorId,
    next_local_id: LocalId,
    assignments: &'a Assignments,
    used: Ghost<Set<u32>>,
}

/// The name under which propagators know the context at initialisation.
pub type PropagatorInitialisationContext<'a> = PropagatorConstructorContext<'a>;

impl<'a> PropagatorConstructorContext<'a> {
    /// The watch lists that registrations go to.
    pub closed spec fn watch_list(&self) -> &WatchListCP {
        &self.watch_list
    }

    /// The propagator that is being added.
    pub closed spec fn propagator(&self) -> PropagatorId {
        self.propagator_id
    }

    /// The least local id above all that were registered.
    pub closed spec fn next_local_id(&self) -> LocalId {
        self.next_local_id
    }

    /// The store that the context reads.
    pub closed spec fn store(&self) -> &Assignments {
        self.assignments
    }

    /// The local ids under which a variable was registered.
    pub closed spec fn used_ids(&self) -> Set<u32> {
        self.used@
    }

    /// Whether nothing was registered yet.
    pub open spec fn fresh(&self) -> bool {
        self.used_ids() == Set::<u32>::empty() && self.next_local_id() == LocalId(0)
    }

    /// The store is well formed and at the root, each of its variables has
    /// watch lists, and the next local id lies above the local ids that are
    /// in use.
    pub open spec fn wf(&self) -> bool {
        &&& self.store().wf()
        &&& self.store().level() == 0
        &&& self.watch_list().num_domains() == self.store().num_domains()
        &&& (forall|id: u32| #[trigger] self.used_ids().contains(id) ==> id < self.next_local_id().0)
    }

    pub fn new(
        watch_list: WatchListCP,
        propagator_id: PropagatorId,
        assignments: &'a Assignments,
    ) -> (r: PropagatorConstructorContext<'a>)
        ensures
            *r.watch_list() == watch_list,
            r.propagator() == propagator_id,
            r.next_local_id() == LocalId(0),
            r.store() == assignments,
            r.fresh(),
    {
        PropagatorConstructorContext {
            watch_list,
            propagator_id,
            next_local_id: LocalId::from(0),
            assignments,
            used: Ghost(Set::empty()),
        }
    }

    /// Gives the watch lists back.
    pub fn into_watch_list(self) -> (r: WatchListCP)
        ensures
            r == *self.watch_list(),
    {
        self.watch_list
    }

    pub fn as_readonly(&self) -> (r: PropagationContext<'a>)
        ensures
            r.store() == self.store(),
    {
        PropagationContext::new(self.assignments)
    }

    /// Whether `self` is `old` after `var` was registered under `local_id`
    /// for `domain_events`.
    pub open spec fn registered(
        &self,
        old: &PropagatorConstructorContext<'a>,
        var: DomainId,
        domain_events: DomainEvents,
        local_id: LocalId,
    ) -> bool {
        &&& self.store() == old.store()
        &&& self.propagator() == old.propagator()
        &&& self.used_ids() == old.used_ids().insert(local_id.0)
        &&& self.next_local_id().0 == if old.next_local_id().0 > local_id.0 {
            old.next_local_id().0 as int
        } else {
            local_id.0 + 1
        }
        &&& self.watch_list().watching(
            old.watch_list(),
            var,
            domain_events,
            PropagatorVarId { propagator: old.propagator(), variable: local_id },
        )
    }

    /// Whether the propagator is told of the change `e` of `x`, under
    /// `local_id`.
    pub open spec fn watches(&self, x: DomainId, e: IntDomainEvent, local_id: LocalId) -> bool {
        self.watch_list().watchers(x, e).contains(
            PropagatorVarId { propagator: self.propagator(), variable: local_id },
        )
    }

    /// After a registration the watch lists hold the new watcher, and each
    /// watcher that they held before.
    pub proof fn lemma_registered(
        &self,
        old: &PropagatorConstructorContext<'a>,
        var: DomainId,
        domain_events: DomainEvents,
        local_id: LocalId,
        x: DomainId,
        e: IntDomainEvent,
    )
        requires
            self.registered(old, var, domain_events, local_id),
            x.index() < old.watch_list().num_domains(),
        ensures
            forall|w: PropagatorVarId|
                old.watch_list().watchers(x, e).contains(w) ==> self.watch_list().watchers(
                    x,
                    e,
                ).contains(w),
            forall|l: LocalId| old.watches(x, e, l) ==> self.watches(x, e, l),
            x == var && domain_events.has(e) ==> self.watches(x, e, local_id),
    {
        let added = PropagatorVarId { propagator: old.propagator(), variable: local_id };
        let old_list = old.watch_list().watchers(x, e);
        let new_list = self.watch_list().watchers(x, e);
        assert(new_list == old_list || new_list == old_list.push(added));
        assert forall|w: PropagatorVarId| old_list.contains(w) implies new_list.contains(w) by {
            let t = choose|t: int| 0 <= t < old_list.len() && old_list[t] == w;
            assert(new_list[t] == w);
        }
        if x == var && domain_events.has(e) {
            assert(new_list[old_list.len() as int] == added);
        }
    }

    /// Subscribes the propagator to the given [`DomainEvents`].
    ///
    /// The domain events determine when `notify` will be called on the
    /// propagator. The [`LocalId`] is internal information related to the
    /// propagator, which is used when calling `notify` to identify the
    /// variable. Each variable *must* have a unique [`LocalId`]. Most often
    /// this would be its index of the variable in the internal array of
    /// variables.
    ///
    /// The next local id becomes the id after `local_id` where it was not
    /// above it already; the greatest id, after which there is none, cannot
    /// be registered.
    pub fn register(&mut self, var: DomainId, domain_events: DomainEvents, local_id: LocalId) -> (r:
        DomainId)
        requires
            var.index() < old(self).watch_list().num_domains(),
            !old(self).used_ids().contains(local_id.0),
            local_id.0 < u32::MAX,
        ensures
            r == var,
            final(self).registered(old(self), var, domain_events, local_id),
            old(self).wf() ==> final(self).wf(),
    {
        self.used = Ghost(self.used@.insert(local_id.0));
        let propagator_var = PropagatorVarId {
            propagator: self.propagator_id,
            variable: local_id,
        };
        if local_id.unpack() + 1 > self.next_local_id.unpack() {
            self.next_local_id = LocalId::from(local_id.unpack() + 1);
        }
        self.watch_list.watch(var, domain_events, propagator_var);
        var
    }

    /// Subscribes the propagator to the changes `domain_events` of the
    /// variable that `literal` speaks of.
    pub fn register_literal(
        &mut self,
        literal: Literal,
        domain_events: DomainEvents,
        local_id: LocalId,
    ) -> (r: Literal)
        requires
            literal.predicate().domain().index() < old(self).watch_list().num_domains(),
            !old(self).used_ids().contains(local_id.0),
            local_id.0 < u32::MAX,
        ensures
            r == literal,
            old(self).wf() ==> final(self).wf(),
            final(self).registered(
                old(self),
                literal.predicate().domain(),
                domain_events,
                local_id,
            ),
    {
        let _ = self.register(literal.get_domain(), domain_events, local_id);
        literal
    }

    pub fn get_next_local_id(&self) -> (r: LocalId)
        ensures
            r == self.next_local_id(),
    {
        self.next_local_id
    }
}

} // verus!
