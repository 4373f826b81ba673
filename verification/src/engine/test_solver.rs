//! A small solver for trying out a single propagator: it holds the
//! variables and runs the propagator on request.

use vstd::prelude::*;
use crate::assignments::{Assignments, EmptyDomain};
use crate::conjunction::PropositionalConjunction;
use crate::identifiers::PropagatorId;
use crate::inconsistency::Inconsistency;
use crate::literal::Literal;
use crate::predicate::{legal_value, DomainId, Predicate};
use crate::propagation::constructor_context::PropagatorConstructorContext;
use crate::propagation::contexts::PropagationContextMut;
use crate::propagation::propagator::{alike, Propagator};
use crate::propagation::watch_list::WatchListCP;
use crate::reason::{Reason, ReasonView};

verus! {

/// A container for variables, which can be used to test propagators.
pub struct TestSolver {
    assignments: Assignments,
    watch_list: WatchListCP,
}

impl Default for TestSolver {
    fn default() -> (r: TestSolver)
        ensures
            r.wf(),
            r.store().num_domains() == 0,
            r.store().trail_len() == 0,
            r.store().level() == 0,
    {
        TestSolver { assignments: Assignments::new(), watch_list: WatchListCP::new() }
    }
}

impl TestSolver {
    /// The domains and the trail.
    pub closed spec fn store(&self) -> &Assignments {
        &self.assignments
    }

    /// The watch lists.
    pub closed spec fn watch_list(&self) -> &WatchListCP {
        &self.watch_list
    }

    /// The store is well formed and each variable has watch lists.
    pub open spec fn wf(&self) -> bool {
        self.store().wf() && self.watch_list().num_domains() == self.store().num_domains()
    }

    pub fn assignments(&self) -> (r: &Assignments)
        ensures
            r == self.store(),
    {
        &self.assignments
    }

    /// Creates a variable with the domain `lb..=ub`.
    pub fn new_variable(&mut self, lb: i32, ub: i32) -> (r: DomainId)
        requires
            old(self).wf(),
            legal_value(lb as int),
            legal_value(ub as int),
            lb <= ub,
            old(self).store().num_domains() < u32::MAX,
        ensures
            final(self).wf(),
            r.index() == old(self).store().num_domains(),
            final(self).store().num_domains() == old(self).store().num_domains() + 1,
            final(self).store().level() == old(self).store().level(),
            final(self).store().trail_len() == old(self).store().trail_len(),
            forall|v: int| #[trigger] final(self).store().contains(r, v) <==> lb <= v <= ub,
            forall|x: DomainId, v: int|
                x != r ==> (#[trigger] final(self).store().contains(x, v)
                    <==> old(self).store().contains(x, v)),
    {
        self.watch_list.grow();
        self.assignments.grow(lb, ub)
    }

    /// Creates a 0/1 variable and the literal that is true where it is 1.
    pub fn new_literal(&mut self) -> (r: Literal)
        requires
            old(self).wf(),
            old(self).store().num_domains() < u32::MAX,
        ensures
            final(self).wf(),
            r.predicate() == (Predicate::LowerBound {
                domain_id: DomainId { id: old(self).store().num_domains() as u32 },
                lower_bound: 1,
            }),
            final(self).store().num_domains() == old(self).store().num_domains() + 1,
            final(self).store().level() == old(self).store().level(),
            !final(self).store().satisfies(r.predicate()),
            !final(self).store().falsifies(r.predicate()),
    {
        let id = self.new_variable(0, 1);
        let literal = Literal::new(Predicate::LowerBound { domain_id: id, lower_bound: 1 });
        proof {
            assert(self.store().contains(id, 0));
            assert(self.store().contains(id, 1));
        }
        literal
    }

    pub fn lower_bound(&self, var: DomainId) -> (r: i32)
        requires
            self.wf(),
            self.store().has(var),
        ensures
            r == self.store().lower(var),
    {
        self.assignments.get_lower_bound(var)
    }

    pub fn upper_bound(&self, var: DomainId) -> (r: i32)
        requires
            self.wf(),
            self.store().has(var),
        ensures
            r == self.store().upper(var),
    {
        self.assignments.get_upper_bound(var)
    }

    pub fn contains(&self, var: DomainId, value: i32) -> (r: bool)
        requires
            self.wf(),
            self.store().has(var),
        ensures
            r == self.store().contains(var, value as int),
    {
        self.assignments.is_value_in_domain(var, value)
    }

    pub fn is_literal_true(&self, literal: Literal) -> (r: bool)
        requires
            self.wf(),
            self.store().has(literal.predicate().domain()),
        ensures
            r == self.store().satisfies(literal.predicate()),
    {
        self.assignments.is_predicate_satisfied(literal.get_predicate())
    }

    pub fn is_literal_false(&self, literal: Literal) -> (r: bool)
        requires
            self.wf(),
            self.store().has(literal.predicate().domain()),
        ensures
            r == self.store().falsifies(literal.predicate()),
    {
        self.assignments.is_predicate_falsified(literal.get_predicate())
    }

    /// The reason that the store gives to a change that is posted without a
    /// justification: a decision above the root, nothing at the root.
    pub open spec fn unjustified(store: &Assignments) -> ReasonView {
        if store.level() == 0 {
            ReasonView::RootLevel
        } else {
            ReasonView::Decision
        }
    }

    /// Posts `predicate` without a justification.
    pub fn post(&mut self, predicate: Predicate) -> (r: Result<(), EmptyDomain>)
        requires
            old(self).wf(),
            old(self).store().has(predicate.domain()),
        ensures
            final(self).wf(),
            r is Err <==> old(self).store().falsifies(predicate),
            r is Err ==> *final(self).store() == *old(self).store(),
            r is Ok ==> final(self).store().posted(
                old(self).store(),
                predicate,
                Self::unjustified(old(self).store()),
            ),
    {
        let reason = if self.assignments.get_decision_level() == 0 {
            Reason::RootLevel
        } else {
            Reason::Decision
        };
        self.assignments.post_predicate(predicate, reason)
    }

    /// Makes `literal` true or false without a justification.
    pub fn set_literal(&mut self, literal: Literal, truth_value: bool) -> (r: Result<
        (),
        EmptyDomain,
    >)
        requires
            old(self).wf(),
            old(self).store().has(literal.predicate().domain()),
        ensures
            final(self).wf(),
            r is Err <==> old(self).store().falsifies(
                PropagationContextMut::literal_predicate(literal, truth_value),
            ),
            r is Err ==> *final(self).store() == *old(self).store(),
            r is Ok ==> final(self).store().posted(
                old(self).store(),
                PropagationContextMut::literal_predicate(literal, truth_value),
                Self::unjustified(old(self).store()),
            ),
    {
        if truth_value {
            self.post(literal.get_predicate())
        } else {
            self.post(literal.get_predicate().negate())
        }
    }

    /// Runs `propagator` once. The store keeps each valuation that it
    /// allowed and that satisfies the propagator, and an inconsistency is
    /// reported only where there was none.
    pub fn propagate<P: Propagator>(&mut self, propagator: &mut P) -> (r: Result<
        (),
        Inconsistency,
    >)
        requires
            old(self).wf(),
            old(propagator).scope() <= old(self).store().num_domains(),
        ensures
            final(self).wf(),
            final(self).store().extends(old(self).store()),
            *final(self).watch_list() == *old(self).watch_list(),
            alike(&*final(propagator), &*old(propagator)),
            r matches Err(e) ==> e.holds_in(final(self).store()),
            forall|values: spec_fn(DomainId) -> int| #[trigger]
                old(propagator).satisfied_by(values) && old(self).store().allows(values)
                    ==> final(self).store().allows(values),
            r is Err ==> forall|values: spec_fn(DomainId) -> int|
                !(#[trigger] old(propagator).satisfied_by(values) && old(self).store().allows(
                    values,
                )),
    {
        let mut assignments = Assignments::new();
        core::mem::swap(&mut assignments, &mut self.assignments);
        let mut context = PropagationContextMut::new(assignments, PropagatorId(0));
        proof {
            assert(context.reification_predicates() =~= Seq::<Predicate>::empty());
        }
        let result = propagator.propagate(&mut context);
        self.assignments = context.into_assignments();
        result
    }

    /// Adds `propagator`: initialises it at the root and runs it once. The
    /// store keeps each valuation that it allowed and that satisfies the
    /// propagator. An inconsistency is reported only where there was none;
    /// where the initialisation reports a conjunction, the inconsistency is
    /// the conflict of that conjunction, and the store stays as it was.
    pub fn new_propagator<P: Propagator>(&mut self, propagator: P) -> (r: Result<P, Inconsistency>)
        requires
            old(self).wf(),
            old(self).store().level() == 0,
            propagator.scope() <= old(self).store().num_domains(),
            propagator.local_ids() <= u32::MAX,
        ensures
            final(self).wf(),
            final(self).store().extends(old(self).store()),
            r matches Ok(p) ==> alike(&p, &propagator),
            r matches Err(e) ==> e.holds_in(final(self).store()),
            forall|values: spec_fn(DomainId) -> int| #[trigger]
                propagator.satisfied_by(values) && old(self).store().allows(values)
                    ==> final(self).store().allows(values),
            r is Err ==> forall|values: spec_fn(DomainId) -> int|
                !(#[trigger] propagator.satisfied_by(values) && old(self).store().allows(values)),
    {
        let ghost given = propagator;
        let mut propagator = propagator;
        let mut watch_list = WatchListCP::new();
        core::mem::swap(&mut watch_list, &mut self.watch_list);
        let mut context = PropagatorConstructorContext::new(
            watch_list,
            PropagatorId(0),
            &self.assignments,
        );
        let initialised = propagator.initialise_at_root(&mut context);
        self.watch_list = context.into_watch_list();
        match initialised {
            Err(conflict_nogood) => {
                proof {
                    self.assignments.lemma_extends_reflexive();
                    assert forall|values: spec_fn(DomainId) -> int|
                        !(#[trigger] given.satisfied_by(values) && self.store().allows(values)) by {
                        if given.satisfied_by(values) && self.store().allows(values) {
                            self.store().lemma_allowed_meets(values, conflict_nogood@);
                            assert(propagator.satisfied_by(values));
                        }
                    }
                }
                return Err(Inconsistency::Conflict { conflict_nogood });
            },
            Ok(_) => {},
        }
        match self.propagate(&mut propagator) {
            Err(e) => Err(e),
            Ok(_) => Ok(propagator),
        }
    }

    /// The conjunction that was given as the reason of the change that made
    /// `predicate` true; `None` where `predicate` held from the start, or
    /// became true without a conjunction. A predicate that does not hold has
    /// no reason to ask for.
    pub fn get_reason_int(&self, predicate: Predicate) -> (r: Option<&PropositionalConjunction>)
        requires
            self.wf(),
            self.store().has(predicate.domain()),
            self.store().satisfies(predicate),
        ensures
            match r {
                Some(c) => self.store().trail_position(predicate) matches Some(i)
                    && self.store().entry(i).reason == Reason::Eager(*c),
                None => !(self.store().trail_position(predicate) matches Some(i)
                    && self.store().entry(i).reason is Eager),
            },
    {
        match self.assignments.get_trail_position(predicate) {
            Some(i) => match &self.assignments.get_trail_entry(i).reason {
                Reason::Eager(conjunction) => Some(conjunction),
                _ => None,
            },
            None => None,
        }
    }

    /// The reason of the change that gave `literal` the value `truth_value`.
    pub fn get_reason_bool(&self, literal: Literal, truth_value: bool) -> (r: Option<
        &PropositionalConjunction,
    >)
        requires
            self.wf(),
            self.store().has(literal.predicate().domain()),
            self.store().satisfies(PropagationContextMut::literal_predicate(literal, truth_value)),
        ensures
            match r {
                Some(c) => self.store().trail_position(
                    PropagationContextMut::literal_predicate(literal, truth_value),
                ) matches Some(i) && self.store().entry(i).reason == Reason::Eager(*c),
                None => !(self.store().trail_position(
                    PropagationContextMut::literal_predicate(literal, truth_value),
                ) matches Some(i) && self.store().entry(i).reason is Eager),
            },
    {
        if truth_value {
            self.get_reason_int(literal.get_predicate())
        } else {
            self.get_reason_int(literal.get_predicate().negate())
        }
    }
}

} // verus!
