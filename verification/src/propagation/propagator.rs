//! The interface of a propagator.

use vstd::prelude::*;
use crate::assignments::Assignments;
use crate::conjunction::PropositionalConjunction;
use crate::identifiers::LocalId;
use crate::inconsistency::PropagationStatusCP;
use crate::predicate::{meets, DomainId, Predicate};
use crate::propagation::constructor_context::PropagatorConstructorContext;
use crate::propagation::contexts::{PropagationContext, PropagationContextMut};
use crate::propagation::domain_events::OpaqueDomainEvent;

verus! {

/// Indicator of what to do when a propagator is notified.
#[derive(Clone, Copy, Debug, PartialEq, Eq, Structural)]
pub enum EnqueueDecision {
    /// The propagator should be enqueued.
    Enqueue,
    /// The propagator should not be enqueued.
    Skip,
}

/// All propagators implement the [`Propagator`] trait. Structs implementing
/// the trait define the main propagator logic with regards to propagation,
/// detecting conflicts, and providing explanations.
///
/// The only required functions are
/// [`Propagator::debug_propagate_from_scratch`] and [`Propagator::name`]; all
/// other functions have default implementations.
///
/// What the trait asks of an implementation: a propagation leaves the store
/// well formed and only continues it; each conjunction that it gives as a
/// reason holds the reification literals of the context; a conflict that it
/// reports holds in the store; a conjunction that it gives for infeasibility
/// is one that the store satisfies; the variables that it speaks of, and
/// what it is about, stay the same; and a propagation from scratch that
/// finds nothing to do leaves a store of which the propagator's promise for
/// its fixed points holds. A propagation removes no value that a valuation
/// which satisfies the propagator gives to a variable, and reports a
/// conflict only where the store allows no such valuation; a conjunction
/// that it gives for infeasibility is met by no such valuation; and a
/// valuation that satisfies the propagator satisfies it ever after.
pub trait Propagator {
    /// The number of variables that a store must have for the propagator to
    /// work on it: the propagator speaks only of variables with an index
    /// below this number. By default it speaks of none.
    open spec fn scope(&self) -> nat {
        0
    }

    /// The number of local ids that the propagator takes when it is
    /// initialised: it registers under ids below this number. By default it
    /// registers nothing.
    open spec fn local_ids(&self) -> nat {
        0
    }

    /// What the propagator is about, in numbers: the part of it that none
    /// of its methods changes. By default it says nothing.
    open spec fn constraint(&self) -> Seq<Seq<int>> {
        seq![]
    }

    /// Whether the constraint of the propagator holds where each variable
    /// has the value that `values` gives it. By default it holds of every
    /// valuation: such a propagator removes no value.
    open spec fn satisfied_by(&self, values: spec_fn(DomainId) -> int) -> bool {
        true
    }

    /// What the propagator promises of a store on which its propagation
    /// from scratch finds nothing to do. By default it promises nothing.
    open spec fn at_fixed_point(&self, store: &Assignments) -> bool {
        true
    }

    /// Return the name of the propagator, this is a convenience method that
    /// is used for printing.
    fn name(&self) -> &str;

    /// A propagation method that is used to help debugging.
    ///
    /// This method propagates without relying on internal data structures,
    /// hence the immutable `&self` parameter. It is usually best to
    /// implement this propagation method in the simplest but correct way.
    ///
    /// Propagators are not required to propagate until a fixed point. It
    /// will be called again by the solver until no further propagations
    /// happen.
    fn debug_propagate_from_scratch(&self, context: &mut PropagationContextMut) -> (r:
        PropagationStatusCP)
        requires
            old(context).wf(),
            self.scope() <= old(context).store().num_domains(),
        ensures
            final(context).wf(),
            final(context).continues(old(context)),
            final(context).carries(old(context)),
            r matches Err(e) ==> e.holds_in(final(context).store()),
            forall|values: spec_fn(DomainId) -> int| #[trigger]
                self.satisfied_by(values) && old(context).store().allows(values)
                    ==> final(context).store().allows(values),
            r is Err ==> forall|values: spec_fn(DomainId) -> int|
                !(#[trigger] self.satisfied_by(values) && old(context).store().allows(values)),
            r is Ok && final(context).store().unchanged_since(old(context).store()) ==> forall|
                later: Assignments,
            |
                later.wf() && #[trigger] later.unchanged_since(final(context).store())
                    ==> self.at_fixed_point(&later),
    ;

    /// Propagate method that will be called during search.
    ///
    /// This method extends the current partial assignments with inferred
    /// domain changes found by the [`Propagator`]. In case no conflict has
    /// been detected it should return [`Result::Ok`], otherwise it should
    /// return a [`Result::Err`] with an inconsistency which contains the
    /// reason for the failure; either because a propagation caused an empty
    /// domain or because the logic of the propagator found the current state
    /// to be inconsistent.
    ///
    /// By default, this function calls
    /// [`Propagator::debug_propagate_from_scratch`].
    fn propagate(&mut self, context: &mut PropagationContextMut) -> (r: PropagationStatusCP)
        requires
            old(context).wf(),
            old(self).scope() <= old(context).store().num_domains(),
        ensures
            final(context).wf(),
            final(context).continues(old(context)),
            final(context).carries(old(context)),
            final(self).scope() == old(self).scope(),
            final(self).constraint() == old(self).constraint(),
            r matches Err(e) ==> e.holds_in(final(context).store()),
            forall|values: spec_fn(DomainId) -> int| #[trigger]
                old(self).satisfied_by(values) && old(context).store().allows(values)
                    ==> final(context).store().allows(values),
            r is Err ==> forall|values: spec_fn(DomainId) -> int|
                !(#[trigger] old(self).satisfied_by(values) && old(context).store().allows(
                    values,
                )),
            forall|values: spec_fn(DomainId) -> int| #[trigger]
                old(self).satisfied_by(values) ==> final(self).satisfied_by(values),
    {
        self.debug_propagate_from_scratch(context)
    }

    /// Called when an event happens to one of the variables the propagator
    /// is subscribed to. It indicates whether the provided event should cause
    /// the propagator to be enqueued.
    ///
    /// By default the propagator is always enqueued for every event.
    fn notify(
        &mut self,
        context: PropagationContext,
        local_id: LocalId,
        event: OpaqueDomainEvent,
    ) -> (r: EnqueueDecision)
        requires
            context.store().wf(),
            old(self).scope() <= context.store().num_domains(),
        ensures
            final(self).scope() == old(self).scope(),
            final(self).constraint() == old(self).constraint(),
            forall|values: spec_fn(DomainId) -> int| #[trigger]
                old(self).satisfied_by(values) ==> final(self).satisfied_by(values),
    {
        EnqueueDecision::Enqueue
    }

    /// Called for each change of a subscribed variable that a backtrack
    /// undoes.
    ///
    /// By default this function does nothing.
    fn notify_backtrack(
        &mut self,
        context: &PropagationContext,
        local_id: LocalId,
        event: OpaqueDomainEvent,
    )
        requires
            context.store().wf(),
            old(self).scope() <= context.store().num_domains(),
        ensures
            final(self).scope() == old(self).scope(),
            final(self).constraint() == old(self).constraint(),
            forall|values: spec_fn(DomainId) -> int| #[trigger]
                old(self).satisfied_by(values) ==> final(self).satisfied_by(values),
    {
    }

    /// Called each time the solver backtracks, the propagator can then
    /// update its internal data structures given the new variable domains.
    ///
    /// By default this function does nothing.
    fn synchronise(&mut self, context: &PropagationContext)
        requires
            context.store().wf(),
            old(self).scope() <= context.store().num_domains(),
        ensures
            final(self).scope() == old(self).scope(),
            final(self).constraint() == old(self).constraint(),
            forall|values: spec_fn(DomainId) -> int| #[trigger]
                old(self).satisfied_by(values) ==> final(self).satisfied_by(values),
    {
    }

    /// Returns the priority of the propagator represented as an integer.
    /// Lower values mean higher priority and the priority determines the
    /// order in which propagators will be asked to propagate.
    ///
    /// By default the priority is set to 3.
    fn priority(&self) -> (r: u32) {
        3
    }

    /// Initialises the propagator without performing propagation. This
    /// method is called only once by the solver when the propagator is
    /// added, with a context in which nothing is registered yet. The local
    /// ids that the propagator takes are machine integers.
    ///
    /// The method can be used to detect root-level inconsistencies: the
    /// conjunction that it then returns is one that the root satisfies.
    fn initialise_at_root(&mut self, context: &mut PropagatorConstructorContext) -> (r: Result<
        (),
        PropositionalConjunction,
    >)
        requires
            old(context).wf(),
            old(context).fresh(),
            old(self).scope() <= old(context).store().num_domains(),
            old(self).local_ids() <= u32::MAX,
        ensures
            final(context).wf(),
            final(context).store() == old(context).store(),
            final(context).propagator() == old(context).propagator(),
            final(context).next_local_id().0 <= old(self).local_ids(),
            final(self).local_ids() == old(self).local_ids(),
            final(self).scope() == old(self).scope(),
            final(self).constraint() == old(self).constraint(),
            forall|values: spec_fn(DomainId) -> int| #[trigger]
                old(self).satisfied_by(values) ==> final(self).satisfied_by(values),
            r matches Err(c) ==> final(context).store().entails(c@),
            r matches Err(c) ==> forall|values: spec_fn(DomainId) -> int| #[trigger]
                final(self).satisfied_by(values) ==> !meets(values, c@),
    {
        Ok(())
    }

    /// A check whether this propagator can detect an inconsistency.
    ///
    /// By implementing this function, if the propagator is reified, it can
    /// propagate the reification literal based on the detected
    /// inconsistency.
    fn detect_inconsistency(&self, context: PropagationContext) -> (r: Option<
        PropositionalConjunction,
    >)
        requires
            context.store().wf(),
            self.scope() <= context.store().num_domains(),
        ensures
            r matches Some(c) ==> context.store().entails(c@),
            r matches Some(c) ==> forall|values: spec_fn(DomainId) -> int| #[trigger]
                self.satisfied_by(values) ==> !meets(values, c@),
    {
        None
    }

    /// Expands the code that the propagator gave as the reason of a change
    /// into the predicates that justify the change.
    ///
    /// By default a propagator has no lazy explanations, and the result is
    /// `None`.
    fn lazy_explanation(&mut self, code: u64, assignments: &Assignments) -> (r: Option<
        Vec<Predicate>,
    >)
        requires
            assignments.wf(),
            old(self).scope() <= assignments.num_domains(),
        ensures
            final(self).scope() == old(self).scope(),
            final(self).constraint() == old(self).constraint(),
            forall|values: spec_fn(DomainId) -> int| #[trigger]
                old(self).satisfied_by(values) ==> final(self).satisfied_by(values),
    {
        None
    }
}

/// Whether each valuation that satisfies `earlier` satisfies `later`.
pub open spec fn no_stricter<P: Propagator>(later: &P, earlier: &P) -> bool {
    forall|values: spec_fn(DomainId) -> int| #[trigger]
        earlier.satisfied_by(values) ==> later.satisfied_by(values)
}

/// Whether the propagator `a` is the propagator `b` at a later time: they
/// speak of the same variables and are about the same, and what satisfies
/// `b` satisfies `a`.
pub open spec fn alike<P: Propagator>(a: &P, b: &P) -> bool {
    a.scope() == b.scope() && a.constraint() == b.constraint() && no_stricter(a, b)
}

} // verus!
