//! Reification: a propagator that runs only where a literal is true.

use vstd::prelude::*;
use vstd::string::StringExecFns;
use crate::assignments::Assignments;
use crate::conjunction::PropositionalConjunction;
use crate::identifiers::LocalId;
use crate::inconsistency::{Inconsistency, PropagationStatusCP};
use crate::literal::Literal;
use crate::predicate::{meets, DomainId, Predicate};
use crate::propagation::constructor_context::PropagatorConstructorContext;
use crate::propagation::contexts::{
    holds_block, lemma_holds_block_prefix, PropagationContext, PropagationContextMut,
};
use crate::propagation::domain_events::{DomainEvents, IntDomainEvent, OpaqueDomainEvent};
use crate::reason::ReasonView;
use crate::propagation::propagator::{EnqueueDecision, Propagator};

verus! {

/// Propagator for the constraint `r -> p`, where `r` is a Boolean literal and
/// `p` is an arbitrary propagator.
///
/// When a propagator is reified, it will only propagate whenever `r` is set
/// to true. However, if the propagator implements
/// [`Propagator::detect_inconsistency`], the result of that method may be
/// used to propagate `r` to false. If that method is not implemented, `r`
/// will never be propagated to false.
pub struct ReifiedPropagator<WrappedPropagator> {
    propagator: WrappedPropagator,
    reification_literal: Literal,
    /// The inconsistency that is identified by `propagator` during
    /// initialisation.
    root_level_inconsistency: Option<PropositionalConjunction>,
    /// The formatted name of the propagator.
    name: String,
    /// The `LocalId` of the reification literal. Is guaranteed to be a larger
    /// ID than any of the registered ids of the wrapped propagator.
    reification_literal_id: LocalId,
}

impl<WrappedPropagator: Propagator> ReifiedPropagator<WrappedPropagator> {
    /// The propagator that is reified.
    pub closed spec fn wrapped(&self) -> &WrappedPropagator {
        &self.propagator
    }

    /// The literal that decides whether the wrapped propagator runs.
    pub closed spec fn literal(&self) -> Literal {
        self.reification_literal
    }

    /// The conjunction with which the wrapped propagator failed at
    /// initialisation, until it was used to make the literal false.
    pub closed spec fn deferred(&self) -> Option<Seq<Predicate>> {
        match self.root_level_inconsistency {
            Some(c) => Some(c@),
            None => None,
        }
    }

    /// The local id under which the literal is registered.
    pub closed spec fn literal_id(&self) -> LocalId {
        self.reification_literal_id
    }

    /// The name of the propagator.
    pub closed spec fn label(&self) -> Seq<char> {
        self.name@
    }

    pub fn new(propagator: WrappedPropagator, reification_literal: Literal) -> (r: Self)
        ensures
            *r.wrapped() == propagator,
            r.literal() == reification_literal,
            r.deferred() is None,
            r.literal_id() == LocalId(0),
    {
        let name = reified_name(propagator.name());
        ReifiedPropagator {
            reification_literal,
            propagator,
            root_level_inconsistency: None,
            name,
            // Place-holder, will be set in `initialise_at_root`
            reification_literal_id: LocalId::from(0),
        }
    }

    /// The status with the reification literal added to the conflict, if it
    /// is one.
    pub open spec fn mapped(&self, status: PropagationStatusCP, r: PropagationStatusCP) -> bool {
        match status {
            Ok(_) => r is Ok,
            Err(Inconsistency::EmptyDomain { predicate, reason }) => r matches Err(
                Inconsistency::EmptyDomain { predicate: p, reason: c },
            ) && p == predicate && c@ == reason@,
            Err(Inconsistency::Conflict { conflict_nogood }) => r matches Err(
                Inconsistency::Conflict { conflict_nogood: c },
            ) && c@ == conflict_nogood@.push(self.literal().predicate()),
        }
    }

    /// Adds the reification literal to the conflict that the wrapped
    /// propagator reports; any other status stays as it is.
    pub fn map_propagation_status(&self, status: PropagationStatusCP) -> (r: PropagationStatusCP)
        ensures
            self.mapped(status, r),
    {
        match status {
            Err(Inconsistency::Conflict { conflict_nogood }) => {
                let mut conflict_nogood = conflict_nogood;
                conflict_nogood.add(self.reification_literal.get_predicate());
                Err(Inconsistency::Conflict { conflict_nogood })
            },
            other => other,
        }
    }

    /// Whether `after` is `before` with the literal made false for the
    /// reason `reason`, or, where `reason` is `None`, `before` itself.
    pub open spec fn refuted(
        &self,
        before: &PropagationContextMut,
        after: &PropagationContextMut,
        reason: Option<Seq<Predicate>>,
    ) -> bool {
        match reason {
            Some(c) => after.store().posted(
                before.store(),
                self.literal().predicate().negation(),
                ReasonView::Eager(before.explained(c)),
            ) && after.store().falsifies(self.literal().predicate()),
            None => *after.store() == *before.store(),
        }
    }

    /// What is made of a conjunction that was detected as an inconsistency
    /// of the wrapped propagator: the reason for which the literal becomes
    /// false, where `store` leaves the literal free; nothing where the
    /// literal is fixed, or no conjunction was detected.
    pub open spec fn refutation(
        &self,
        store: &Assignments,
        detected: Option<PropositionalConjunction>,
    ) -> Option<Seq<Predicate>> {
        match detected {
            Some(c) => if store.satisfies(self.literal().predicate()) || store.falsifies(
                self.literal().predicate(),
            ) {
                None
            } else {
                Some(c@)
            },
            None => None,
        }
    }

    /// Makes the literal false with `detected` as the reason, where the
    /// literal is free and there is such a conjunction; otherwise nothing
    /// changes. It never fails: a free literal can be made false.
    pub fn refute_on(
        &self,
        context: &mut PropagationContextMut,
        detected: Option<PropositionalConjunction>,
    ) -> (r: PropagationStatusCP)
        requires
            old(context).wf(),
            self.scope() <= old(context).store().num_domains(),
            detected matches Some(c) ==> old(context).store().entails(c@),
        ensures
            r is Ok,
            final(context).wf(),
            final(context).continues(old(context)),
            self.refuted(
                old(context),
                final(context),
                self.refutation(old(context).store(), detected),
            ),
            final(context).carries(old(context)),
            forall|values: spec_fn(DomainId) -> int| #[trigger]
                old(context).store().allows(values) && !self.literal().predicate().holds(
                    values(self.literal().predicate().domain()),
                ) ==> final(context).store().allows(values),
    {
        let ghost before = *context;
        if !context.is_literal_fixed(self.reification_literal) {
            if let Some(conjunction) = detected {
                let ghost words = conjunction@;
                let result = context.assign_literal(self.reification_literal, false, conjunction);
                proof {
                    context.lemma_changed_carries(
                        &before,
                        PropagationContextMut::literal_predicate(self.reification_literal, false),
                        words,
                        result,
                    );
                    lemma_free_literal_can_be_false(
                        before.store(),
                        self.literal().predicate(),
                    );
                    assert(result is Ok);
                    lemma_negation_posted(
                        before.store(),
                        context.store(),
                        self.literal().predicate(),
                    );
                    assert forall|values: spec_fn(DomainId) -> int| #[trigger]
                        before.store().allows(values) && !self.literal().predicate().holds(
                            values(self.literal().predicate().domain()),
                        ) implies context.store().allows(values) by {
                        lemma_negation_allowed(
                            before.store(),
                            context.store(),
                            self.literal().predicate(),
                            values,
                        );
                    }
                }
                return result;
            }
        }
        proof {
            context.store().lemma_extends_reflexive();
        }
        Ok(())
    }

    /// Makes the literal false where it is free and the wrapped propagator
    /// detects an inconsistency, with the detected conjunction as the
    /// reason, as [`Self::refute_on`] does it. The wrapped propagator is
    /// asked only while the literal is free.
    pub fn propagate_reification(&self, context: &mut PropagationContextMut) -> (r:
        PropagationStatusCP)
        requires
            old(context).wf(),
            self.scope() <= old(context).store().num_domains(),
        ensures
            final(context).wf(),
            final(context).continues(old(context)),
            r is Ok,
            final(context).carries(old(context)),
            old(context).store().satisfies(self.literal().predicate())
                || old(context).store().falsifies(self.literal().predicate())
                ==> *final(context).store() == *old(context).store(),
            exists|detected: Option<PropositionalConjunction>|
                (detected matches Some(c) ==> old(context).store().entails(c@)) && self.refuted(
                    old(context),
                    final(context),
                    #[trigger] self.refutation(old(context).store(), detected),
                ),
            forall|values: spec_fn(DomainId) -> int| #[trigger]
                self.satisfied_by(values) && old(context).store().allows(values)
                    ==> final(context).store().allows(values),
    {
        let ghost before = *context;
        let detected = if context.is_literal_fixed(self.reification_literal) {
            None
        } else {
            self.propagator.detect_inconsistency(context.as_readonly())
        };
        let ghost found = detected;
        let result = self.refute_on(context, detected);
        proof {
            assert forall|values: spec_fn(DomainId) -> int| #[trigger]
                self.satisfied_by(values) && before.store().allows(
                    values,
                ) implies context.store().allows(values) by {
                if let Some(c) = found {
                    before.store().lemma_allowed_meets(values, c@);
                    assert(!self.wrapped().satisfied_by(values));
                }
            }
        }
        result
    }

    /// Registers the literal for the changes of its bounds, under the next
    /// local id: an id above those that are in use.
    pub fn register_reification(&mut self, context: &mut PropagatorConstructorContext)
        requires
            old(context).wf(),
            old(context).next_local_id().0 < u32::MAX,
            old(self).literal().predicate().domain().index() < old(context).watch_list().num_domains(),
        ensures
            final(context).wf(),
            final(self).literal_id() == old(context).next_local_id(),
            *final(self).wrapped() == *old(self).wrapped(),
            final(self).literal() == old(self).literal(),
            final(self).deferred() == old(self).deferred(),
            final(self).label() == old(self).label(),
            final(context).registered(
                old(context),
                old(self).literal().predicate().domain(),
                DomainEvents::bound_changes(),
                old(context).next_local_id(),
            ),
            final(context).watches(
                old(self).literal().predicate().domain(),
                IntDomainEvent::LowerBound,
                final(self).literal_id(),
            ),
            final(context).watches(
                old(self).literal().predicate().domain(),
                IntDomainEvent::UpperBound,
                final(self).literal_id(),
            ),
    {
        let ghost before = *context;
        self.reification_literal_id = context.get_next_local_id();
        let _ = context.register_literal(
            self.reification_literal,
            DomainEvents::bounds(),
            self.reification_literal_id,
        );
        proof {
            let x = self.literal().predicate().domain();
            context.lemma_registered(
                &before,
                x,
                DomainEvents::bound_changes(),
                self.reification_literal_id,
                x,
                IntDomainEvent::LowerBound,
            );
            context.lemma_registered(
                &before,
                x,
                DomainEvents::bound_changes(),
                self.reification_literal_id,
                x,
                IntDomainEvent::UpperBound,
            );
        }
    }

    /// Keeps the conjunction with which the initialisation of the wrapped
    /// propagator failed, if it failed, for the first propagation.
    pub fn keep_root_inconsistency(&mut self, outcome: Result<(), PropositionalConjunction>)
        ensures
            final(self).deferred() == match outcome {
                Err(c) => Some(c@),
                Ok(_) => old(self).deferred(),
            },
            *final(self).wrapped() == *old(self).wrapped(),
            final(self).literal() == old(self).literal(),
            final(self).literal_id() == old(self).literal_id(),
            final(self).label() == old(self).label(),
    {
        match outcome {
            Err(conjunction) => {
                self.root_level_inconsistency = Some(conjunction);
            },
            Ok(_) => {},
        }
    }

    /// Lets the decision of the wrapped propagator stand only where the
    /// literal is true.
    pub fn filter_enqueue_decision(&self, context: PropagationContext<'_>, decision: EnqueueDecision)
        -> (r: EnqueueDecision)
        requires
            context.store().wf(),
            context.store().has(self.literal().predicate().domain()),
        ensures
            r == if decision == EnqueueDecision::Enqueue && context.store().satisfies(
                self.literal().predicate(),
            ) {
                EnqueueDecision::Enqueue
            } else {
                EnqueueDecision::Skip
            },
    {
        if decision == EnqueueDecision::Enqueue && context.is_literal_true(
            self.reification_literal,
        ) {
            EnqueueDecision::Enqueue
        } else {
            EnqueueDecision::Skip
        }
    }

    /// Runs the wrapped propagator, if the literal is true, with the literal
    /// added to its reasons and to the conflict that it reports.
    fn propagate_wrapped(&mut self, context: &mut PropagationContextMut, from_scratch: bool) -> (r:
        PropagationStatusCP)
        requires
            old(context).wf(),
            old(self).scope() <= old(context).store().num_domains(),
        ensures
            final(context).wf(),
            final(context).continues(old(context)),
            final(self).scope() == old(self).scope(),
            final(self).constraint() == old(self).constraint(),
            final(self).literal() == old(self).literal(),
            final(self).literal_id() == old(self).literal_id(),
            final(self).deferred() == old(self).deferred(),
            final(self).label() == old(self).label(),
            from_scratch ==> *final(self) == *old(self),
            r matches Err(e) ==> e.holds_in(final(context).store()),
            !old(context).store().satisfies(old(self).literal().predicate()) ==> r is Ok
                && *final(context).store() == *old(context).store(),
            r matches Err(Inconsistency::Conflict { conflict_nogood }) ==> conflict_nogood@.len()
                > 0 && conflict_nogood@.last() == old(self).literal().predicate(),
            final(context).carries(old(context)),
            final(context).carries_also(old(context), old(self).literal().predicate()),
            forall|values: spec_fn(DomainId) -> int| #[trigger]
                old(self).satisfied_by(values) && old(context).store().allows(values)
                    ==> final(context).store().allows(values),
            r is Err ==> forall|values: spec_fn(DomainId) -> int|
                !(#[trigger] old(self).satisfied_by(values) && old(context).store().allows(
                    values,
                )),
            forall|values: spec_fn(DomainId) -> int| #[trigger]
                old(self).satisfied_by(values) ==> final(self).satisfied_by(values),
    {
        let ghost start = *context;
        let ghost entered = *self;
        let ghost literal = self.literal().predicate();
        if context.is_literal_true(self.reification_literal) {
            proof {
                assert forall|values: spec_fn(DomainId) -> int| #[trigger]
                    entered.satisfied_by(values) && start.store().allows(
                        values,
                    ) implies entered.wrapped().satisfied_by(values) by {
                    assert(start.store().contains(literal.domain(), values(literal.domain())));
                }
            }
            context.with_reification(self.reification_literal);
            let ghost under = *context;
            let result = if from_scratch {
                self.propagator.debug_propagate_from_scratch(context)
            } else {
                self.propagator.propagate(context)
            };
            let ghost outcome = result;
            let ghost inner = *context;
            context.end_reification();
            proof {
                assert(context.reification() =~= start.reification());
                lemma_carried_through(&start, &under, &inner, context, literal);
                context.store().lemma_extends_keeps(start.store(), literal);
                if let Err(Inconsistency::Conflict { conflict_nogood }) = outcome {
                    let full = conflict_nogood@.push(literal);
                    assert forall|k: int| 0 <= k < full.len() implies context.store().satisfies(
                        #[trigger] full[k],
                    ) by {
                        if k < conflict_nogood@.len() {
                            assert(full[k] == conflict_nogood@[k]);
                        }
                    }
                }
            }
            return self.map_propagation_status(result);
        }
        proof {
            context.store().lemma_extends_reflexive();
        }
        Ok(())
    }
}

/// What was changed under one more reification literal carries that
/// literal after the others, and the others.
pub proof fn lemma_carried_through(
    start: &PropagationContextMut,
    under: &PropagationContextMut,
    inner: &PropagationContextMut,
    after: &PropagationContextMut,
    literal: Predicate,
)
    requires
        under.store() == start.store(),
        after.store() == inner.store(),
        under.reification_predicates() =~= start.reification_predicates().push(literal),
        inner.carries(under),
    ensures
        after.carries(start),
        after.carries_also(start, literal),
{
    let block = start.reification_predicates();
    let longer = block.push(literal);
    assert forall|i: int|
        start.store().trail_len() <= i < after.store().trail_len() && (
        #[trigger] after.store().entry(i)).reason@ is Eager implies holds_block(
        after.store().entry(i).reason@->Eager_0,
        block,
    ) && holds_block(after.store().entry(i).reason@->Eager_0, longer) by {
        let c = inner.store().entry(i).reason@->Eager_0;
        assert(holds_block(c, longer));
        lemma_holds_block_prefix(c, longer, block.len() as int);
        assert(longer.take(block.len() as int) =~= block);
    }
}

/// The name of the reification of a propagator called `name`.
pub fn reified_name(name: &str) -> (r: String)
    ensures
        r@ == "Reified("@ + name@ + ")"@,
{
    let mut reified = String::from_str("Reified(");
    reified.append(name);
    reified.append(")");
    reified
}

/// A store that neither satisfies nor falsifies a predicate does not falsify
/// the negation of the predicate.
pub proof fn lemma_free_literal_can_be_false(store: &Assignments, p: Predicate)
    requires
        store.wf(),
        store.has(p.domain()),
        !store.satisfies(p),
    ensures
        !store.falsifies(p.negation()),
{
    let n = store.trail_len() as int;
    if store.falsifies(p.negation()) {
        assert forall|v: int| #[trigger] store.contains_at(n, p.domain(), v) implies p.holds(v) by {
            store.lemma_bounds(n, p.domain());
            assert(store.contains(p.negation().domain(), v));
            crate::predicate::lemma_double_negation(p, v);
        }
    }
}

/// A store in which the negation of a predicate was posted falsifies the
/// predicate.
pub proof fn lemma_negation_posted(before: &Assignments, after: &Assignments, p: Predicate)
    requires
        before.wf(),
        after.wf(),
        before.has(p.domain()),
        exists|reason| after.posted(before, p.negation(), reason),
    ensures
        after.falsifies(p),
{
    assert forall|v: int| #[trigger] after.contains(p.domain(), v) implies !p.holds(v) by {
        after.lemma_bounds(after.trail_len() as int, p.domain());
        crate::predicate::lemma_double_negation(p, v);
    }
}

/// A store in which the negation of a predicate was posted allows each
/// valuation that the store before allowed and of which the predicate does
/// not hold.
pub proof fn lemma_negation_allowed(
    before: &Assignments,
    after: &Assignments,
    p: Predicate,
    values: spec_fn(DomainId) -> int,
)
    requires
        before.wf(),
        before.has(p.domain()),
        exists|reason| after.posted(before, p.negation(), reason),
        before.allows(values),
        !p.holds(values(p.domain())),
    ensures
        after.allows(values),
{
    let v = values(p.domain());
    assert(before.contains(p.domain(), v));
    before.lemma_bounds(before.trail_len() as int, p.domain());
    crate::predicate::lemma_double_negation(p, v);
    assert forall|x: DomainId| after.has(x) implies #[trigger] after.contains(x, values(x)) by {
        assert(before.contains(x, values(x)));
    }
}

/// The least number of variables that a store must have to hold the
/// variable `index`, next to `scope` other variables.
pub open spec fn scope_with(scope: nat, index: int) -> nat {
    if scope > index {
        scope
    } else {
        (index + 1) as nat
    }
}

impl<WrappedPropagator: Propagator> Propagator for ReifiedPropagator<WrappedPropagator> {
    /// The variables of the wrapped propagator and the variable of the
    /// literal.
    open spec fn scope(&self) -> nat {
        scope_with(self.wrapped().scope(), self.literal().predicate().domain().index())
    }

    /// The local ids of the wrapped propagator, and one for the literal.
    open spec fn local_ids(&self) -> nat {
        self.wrapped().local_ids() + 1
    }

    /// Whether the literal is false under `values`, or `values` satisfies
    /// the wrapped propagator. While the conjunction with which the wrapped
    /// propagator failed at initialisation is kept, which no valuation
    /// meets that satisfies the wrapped propagator, `values` must not meet
    /// it where the literal is true.
    open spec fn satisfied_by(&self, values: spec_fn(DomainId) -> int) -> bool {
        self.literal().predicate().holds(values(self.literal().predicate().domain()))
            ==> self.wrapped().satisfied_by(values) && (self.deferred() matches Some(c) ==> !meets(
            values,
            c,
        ))
    }

    /// What the wrapped propagator is about.
    open spec fn constraint(&self) -> Seq<Seq<int>> {
        self.wrapped().constraint()
    }

    /// Where the literal is true, what the wrapped propagator promises.
    open spec fn at_fixed_point(&self, store: &Assignments) -> bool {
        store.satisfies(self.literal().predicate()) ==> self.wrapped().at_fixed_point(store)
    }

    fn name(&self) -> (r: &str)
        ensures
            r@ == self.label(),
    {
        self.name.as_str()
    }

    fn notify(
        &mut self,
        context: PropagationContext,
        local_id: LocalId,
        event: OpaqueDomainEvent,
    ) -> (r: EnqueueDecision)
        ensures
            final(self).literal() == old(self).literal(),
            final(self).literal_id() == old(self).literal_id(),
            final(self).deferred() == old(self).deferred(),
            local_id.0 >= old(self).literal_id().0 ==> r == EnqueueDecision::Enqueue
                && *final(self) == *old(self),
            local_id.0 < old(self).literal_id().0 && !context.store().satisfies(
                old(self).literal().predicate(),
            ) ==> r == EnqueueDecision::Skip,
    {
        if local_id.0 < self.reification_literal_id.0 {
            let decision = self.propagator.notify(context, local_id, event);
            self.filter_enqueue_decision(context, decision)
        } else {
            EnqueueDecision::Enqueue
        }
    }

    fn notify_backtrack(
        &mut self,
        context: &PropagationContext,
        local_id: LocalId,
        event: OpaqueDomainEvent,
    )
        ensures
            final(self).literal() == old(self).literal(),
            final(self).literal_id() == old(self).literal_id(),
            final(self).deferred() == old(self).deferred(),
            local_id.0 >= old(self).literal_id().0 ==> *final(self) == *old(self),
    {
        if local_id.0 < self.reification_literal_id.0 {
            self.propagator.notify_backtrack(context, local_id, event);
        }
    }

    /// Initialises the wrapped propagator, keeps the conjunction with which
    /// it failed, if it failed, and registers the literal once, for the
    /// changes of its bounds, under the local id that comes after those of
    /// the wrapped propagator.
    fn initialise_at_root(&mut self, context: &mut PropagatorConstructorContext) -> (r: Result<
        (),
        PropositionalConjunction,
    >)
        ensures
            r is Ok,
            final(self).literal() == old(self).literal(),
            final(self).literal_id().0 <= final(context).next_local_id().0,
            final(self).deferred() == old(self).deferred() || (final(self).deferred() matches Some(
                c,
            ) && final(context).store().entails(c)),
            final(context).watches(
                old(self).literal().predicate().domain(),
                IntDomainEvent::LowerBound,
                final(self).literal_id(),
            ),
            final(context).watches(
                old(self).literal().predicate().domain(),
                IntDomainEvent::UpperBound,
                final(self).literal_id(),
            ),
            final(context).used_ids().contains(final(self).literal_id().0),
            final(context).next_local_id().0 == final(self).literal_id().0 + 1,
            forall|id: u32| #[trigger]
                final(context).used_ids().contains(id) && id != final(self).literal_id().0 ==> id
                    < final(self).literal_id().0,
            exists|wrapped: PropagatorConstructorContext|
                {
                    &&& #[trigger] final(context).registered(
                        &wrapped,
                        old(self).literal().predicate().domain(),
                        DomainEvents::bound_changes(),
                        final(self).literal_id(),
                    )
                    &&& wrapped.wf()
                    &&& wrapped.next_local_id() == final(self).literal_id()
                    &&& wrapped.next_local_id().0 <= old(self).wrapped().local_ids()
                },
    {
        // Since we cannot propagate here, we store a conflict which the
        // wrapped propagator identifies at the root, and propagate the
        // reification literal to false in the `propagate` method.
        let outcome = self.propagator.initialise_at_root(context);
        self.keep_root_inconsistency(outcome);
        let ghost wrapped = *context;
        self.register_reification(context);
        proof {
            assert(context.registered(
                &wrapped,
                self.literal().predicate().domain(),
                DomainEvents::bound_changes(),
                self.literal_id(),
            ));
        }
        Ok(())
    }

    /// The priority of the wrapped propagator.
    fn priority(&self) -> (r: u32) {
        self.propagator.priority()
    }

    /// Where the wrapped propagator failed at initialisation, the literal is
    /// first made false with the conjunction of that failure as the reason,
    /// once; the conjunction is kept for later while the store does not
    /// satisfy it. Then the reification is propagated, and the wrapped
    /// propagator runs if the literal is true.
    fn propagate(&mut self, context: &mut PropagationContextMut) -> (r: PropagationStatusCP)
        ensures
            final(self).literal() == old(self).literal(),
            final(self).literal_id() == old(self).literal_id(),
            old(self).deferred() matches Some(c) && old(context).store().entails(c)
                ==> final(self).deferred() is None && (r is Ok ==> final(context).store().falsifies(
                old(self).literal().predicate(),
            )),
            old(self).deferred() is None ==> final(self).deferred() is None,
            !final(context).store().satisfies(old(self).literal().predicate()) ==> r is Ok,
            r matches Err(Inconsistency::Conflict { conflict_nogood }) ==> conflict_nogood@.len()
                > 0 && conflict_nogood@.last() == old(self).literal().predicate(),
            old(self).deferred() is None && old(context).store().falsifies(
                old(self).literal().predicate(),
            ) ==> r is Ok && *final(context).store() == *old(context).store(),
            old(self).deferred() is Some && old(context).store().entails(old(self).deferred()->0)
                ==> {
                &&& r is Err <==> old(context).store().satisfies(old(self).literal().predicate())
                &&& r is Ok ==> final(context).store().posted(
                    old(context).store(),
                    old(self).literal().predicate().negation(),
                    ReasonView::Eager(old(context).explained(old(self).deferred()->0)),
                )
            },
            old(self).deferred() matches Some(c) && !old(context).store().entails(c)
                ==> final(self).deferred() == old(self).deferred(),
            old(context).store().satisfies(old(self).literal().predicate())
                ==> final(context).carries_also(old(context), old(self).literal().predicate()),
            !final(context).store().satisfies(old(self).literal().predicate())
                && !(old(self).deferred() is Some
                && old(context).store().entails(old(self).deferred()->0)) ==> exists|
                detected: Option<PropositionalConjunction>,
            |
                (detected matches Some(c) ==> old(context).store().entails(c@)) && old(self).refuted(
                    old(context),
                    final(context),
                    #[trigger] old(self).refutation(old(context).store(), detected),
                ),
    {
        let ghost start = *context;
        let ghost entered = *self;
        let ghost literal = self.literal().predicate();
        proof {
            crate::literal::lemma_not_both(start.store(), literal);
            if !start.store().satisfies(literal) {
                lemma_free_literal_can_be_false(start.store(), literal);
            } else {
                assert forall|v: int| #[trigger]
                    start.store().contains(literal.domain(), v) implies !literal.negation().holds(
                    v,
                ) by {
                    start.store().lemma_bounds(start.store().trail_len() as int, literal.domain());
                    crate::predicate::lemma_double_negation(literal, v);
                }
                assert(start.store().falsifies(literal.negation()));
            }
        }
        let deferred = self.root_level_inconsistency.take();
        if let Some(conjunction) = deferred {
            if context.is_conjunction_entailed(&conjunction) {
                let ghost words = conjunction@;
                let posted = context.assign_literal(self.reification_literal, false, conjunction);
                proof {
                    context.lemma_changed_carries(
                        &start,
                        PropagationContextMut::literal_predicate(self.reification_literal, false),
                        words,
                        posted,
                    );
                }
                match posted {
                    Err(e) => {
                        proof {
                            assert forall|values: spec_fn(DomainId) -> int|
                                !(#[trigger] entered.satisfied_by(values) && start.store().allows(
                                    values,
                                )) by {
                                if entered.satisfied_by(values) && start.store().allows(values) {
                                    start.store().lemma_allowed_meets(values, words);
                                    assert(start.store().contains(
                                        literal.domain(),
                                        values(literal.domain()),
                                    ));
                                }
                            }
                        }
                        return Err(e);
                    },
                    Ok(_) => {
                        proof {
                            lemma_negation_posted(start.store(), context.store(), literal);
                            assert forall|values: spec_fn(DomainId) -> int| #[trigger]
                                entered.satisfied_by(values) && start.store().allows(
                                    values,
                                ) implies context.store().allows(values) by {
                                start.store().lemma_allowed_meets(values, words);
                                lemma_negation_allowed(
                                    start.store(),
                                    context.store(),
                                    literal,
                                    values,
                                );
                            }
                        }
                    },
                }
            } else {
                self.root_level_inconsistency = Some(conjunction);
            }
        }
        let ghost middle = *context;
        let ghost kept = *self;
        proof {
            crate::literal::lemma_not_both(middle.store(), literal);
            middle.store().lemma_extends_reflexive();
            assert forall|values: spec_fn(DomainId) -> int| #[trigger]
                entered.satisfied_by(values) implies kept.satisfied_by(values) by {}
        }
        match self.propagate_reification(context) {
            Err(e) => {
                return Err(e);
            },
            Ok(_) => {},
        }
        let ghost reified = *context;
        proof {
            context.lemma_carries_chain(&middle, &start);
            context.store().lemma_extends_transitive(middle.store(), start.store());
            context.store().lemma_extends_keeps(middle.store(), literal);
            crate::literal::lemma_not_both(reified.store(), literal);
        }
        let result = self.propagate_wrapped(context, false);
        proof {
            context.lemma_carries_chain(&reified, &start);
            context.store().lemma_extends_transitive(reified.store(), start.store());
            context.store().lemma_extends_keeps(reified.store(), literal);
        }
        result
    }

    /// Propagates the reification, and runs the wrapped propagator from
    /// scratch if the literal is true then; a conflict that it reports gets
    /// the literal as its last predicate, and each conjunction that it
    /// gives as a reason holds the literal.
    fn debug_propagate_from_scratch(&self, context: &mut PropagationContextMut) -> (r:
        PropagationStatusCP)
        ensures
            !final(context).store().satisfies(self.literal().predicate()) ==> r is Ok,
            r matches Err(Inconsistency::Conflict { conflict_nogood }) ==> conflict_nogood@.len()
                > 0 && conflict_nogood@.last() == self.literal().predicate(),
            old(context).store().falsifies(self.literal().predicate()) ==> r is Ok
                && *final(context).store() == *old(context).store(),
            old(context).store().satisfies(self.literal().predicate())
                ==> final(context).carries_also(old(context), self.literal().predicate()),
            !final(context).store().satisfies(self.literal().predicate()) ==> exists|
                detected: Option<PropositionalConjunction>,
            |
                (detected matches Some(c) ==> old(context).store().entails(c@)) && self.refuted(
                    old(context),
                    final(context),
                    #[trigger] self.refutation(old(context).store(), detected),
                ),
    {
        let ghost start = *context;
        let ghost literal = self.literal().predicate();
        proof {
            crate::literal::lemma_not_both(start.store(), literal);
        }
        match self.propagate_reification(context) {
            Err(e) => {
                return Err(e);
            },
            Ok(_) => {},
        }
        let ghost reified = *context;
        if context.is_literal_true(self.reification_literal) {
            proof {
                assert forall|values: spec_fn(DomainId) -> int| #[trigger]
                    self.satisfied_by(values) && start.store().allows(
                        values,
                    ) implies self.wrapped().satisfied_by(values) && reified.store().allows(
                    values,
                ) by {
                    assert(reified.store().contains(literal.domain(), values(literal.domain())));
                }
            }
            context.with_reification(self.reification_literal);
            let ghost under = *context;
            let result = self.propagator.debug_propagate_from_scratch(context);
            let ghost outcome = result;
            let ghost inner = *context;
            context.end_reification();
            proof {
                assert(context.reification() =~= start.reification());
                lemma_carried_through(&reified, &under, &inner, context, literal);
                context.lemma_carries_chain(&reified, &start);
                context.store().lemma_extends_transitive(reified.store(), start.store());
                context.store().lemma_extends_keeps(reified.store(), literal);
                if let Err(Inconsistency::Conflict { conflict_nogood }) = outcome {
                    let full = conflict_nogood@.push(literal);
                    assert forall|k: int| 0 <= k < full.len() implies context.store().satisfies(
                        #[trigger] full[k],
                    ) by {
                        if k < conflict_nogood@.len() {
                            assert(full[k] == conflict_nogood@[k]);
                        }
                    }
                }
                if outcome is Ok && context.store().unchanged_since(start.store()) {
                    context.store().lemma_unchanged_between(reified.store(), start.store());
                    assert forall|later: Assignments|
                        later.wf() && #[trigger] later.unchanged_since(
                            context.store(),
                        ) implies self.at_fixed_point(&later) by {
                        assert(later.unchanged_since(inner.store()));
                    }
                }
            }
            return self.map_propagation_status(result);
        }
        proof {
            if context.store().unchanged_since(start.store()) {
                assert forall|later: Assignments|
                    later.wf() && #[trigger] later.unchanged_since(
                        context.store(),
                    ) implies self.at_fixed_point(&later) by {
                    later.lemma_unchanged(context.store(), literal);
                }
            }
        }
        Ok(())
    }

    fn synchronise(&mut self, context: &PropagationContext)
        ensures
            final(self).literal() == old(self).literal(),
            final(self).literal_id() == old(self).literal_id(),
            final(self).deferred() == old(self).deferred(),
    {
        self.propagator.synchronise(context);
    }
}

} // verus!
