//! The kinds of domain change that a propagator can subscribe to.

use vstd::prelude::*;

verus! {

/// A kind of change of an integer domain.
#[derive(Clone, Copy, Debug, PartialEq, Eq, Structural, Hash)]
pub enum IntDomainEvent {
    /// The domain was left with one value.
    Assign,
    /// The lower bound was raised.
    LowerBound,
    /// The upper bound was lowered.
    UpperBound,
    /// A value was taken from the interior of the domain.
    Removal,
}

/// A domain event whose kind only the variable that it belongs to may read.
#[derive(Clone, Copy, Debug, PartialEq, Eq, Structural, Hash)]
pub struct OpaqueDomainEvent(IntDomainEvent);

impl OpaqueDomainEvent {
    pub closed spec fn event(self) -> IntDomainEvent {
        self.0
    }

    pub fn from(event: IntDomainEvent) -> (r: OpaqueDomainEvent)
        ensures
            r.event() == event,
    {
        OpaqueDomainEvent(event)
    }

    pub fn unwrap(self) -> (r: IntDomainEvent)
        ensures
            r == self.event(),
    {
        self.0
    }
}

/// A set of kinds of domain change.
#[derive(Clone, Copy, Debug, PartialEq, Eq, Structural, Hash)]
pub struct DomainEvents {
    assign: bool,
    lower_bound: bool,
    upper_bound: bool,
    removal: bool,
}

impl DomainEvents {
    /// Whether the set holds `event`.
    pub closed spec fn has(self, event: IntDomainEvent) -> bool {
        match event {
            IntDomainEvent::Assign => self.assign,
            IntDomainEvent::LowerBound => self.lower_bound,
            IntDomainEvent::UpperBound => self.upper_bound,
            IntDomainEvent::Removal => self.removal,
        }
    }

    /// The set of the given kinds.
    pub fn of(assign: bool, lower_bound: bool, upper_bound: bool, removal: bool) -> (r:
        DomainEvents)
        ensures
            r.has(IntDomainEvent::Assign) == assign,
            r.has(IntDomainEvent::LowerBound) == lower_bound,
            r.has(IntDomainEvent::UpperBound) == upper_bound,
            r.has(IntDomainEvent::Removal) == removal,
    {
        DomainEvents { assign, lower_bound, upper_bound, removal }
    }

    /// Every kind of change.
    pub fn any_int() -> (r: DomainEvents)
        ensures
            forall|e: IntDomainEvent| r.has(e),
    {
        DomainEvents { assign: true, lower_bound: true, upper_bound: true, removal: true }
    }

    /// The set that holds the changes of a bound and no other.
    pub closed spec fn bound_changes() -> DomainEvents {
        DomainEvents { assign: false, lower_bound: true, upper_bound: true, removal: false }
    }

    /// What the set of the changes of a bound holds.
    pub proof fn lemma_bound_changes()
        ensures
            forall|e: IntDomainEvent| #[trigger]
                DomainEvents::bound_changes().has(e) <==> e == IntDomainEvent::LowerBound || e
                    == IntDomainEvent::UpperBound,
    {
    }

    /// The changes of a bound.
    pub fn bounds() -> (r: DomainEvents)
        ensures
            r == DomainEvents::bound_changes(),
            forall|e: IntDomainEvent|
                r.has(e) <==> e == IntDomainEvent::LowerBound || e == IntDomainEvent::UpperBound,
    {
        DomainEvents { assign: false, lower_bound: true, upper_bound: true, removal: false }
    }

    /// The change that leaves one value.
    pub fn assign() -> (r: DomainEvents)
        ensures
            forall|e: IntDomainEvent| r.has(e) <==> e == IntDomainEvent::Assign,
    {
        DomainEvents { assign: true, lower_bound: false, upper_bound: false, removal: false }
    }

    pub fn contains(&self, event: IntDomainEvent) -> (r: bool)
        ensures
            r == self.has(event),
    {
        match event {
            IntDomainEvent::Assign => self.assign,
            IntDomainEvent::LowerBound => self.lower_bound,
            IntDomainEvent::UpperBound => self.upper_bound,
            IntDomainEvent::Removal => self.removal,
        }
    }
}

} // verus!
