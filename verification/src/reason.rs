//! Why a trail entry was made.

use vstd::prelude::*;
use crate::conjunction::PropositionalConjunction;
use crate::identifiers::PropagatorId;
use crate::predicate::Predicate;

verus! {

/// The justification that is stored with a trail entry.
#[derive(Debug)]
pub enum Reason {
    /// The entry is a decision of the search.
    Decision,
    /// The entry was posted at the root without a justification.
    RootLevel,
    /// The entry follows from the predicates of the conjunction.
    Eager(PropositionalConjunction),
    /// The propagator can expand the code into a conjunction on demand.
    Lazy(PropagatorId, u64),
}

/// What a reason says: its kind, and its predicates or its code.
pub enum ReasonView {
    Decision,
    RootLevel,
    Eager(Seq<Predicate>),
    Lazy(PropagatorId, u64),
}

impl View for Reason {
    type V = ReasonView;

    open spec fn view(&self) -> ReasonView {
        match *self {
            Reason::Decision => ReasonView::Decision,
            Reason::RootLevel => ReasonView::RootLevel,
            Reason::Eager(c) => ReasonView::Eager(c@),
            Reason::Lazy(p, code) => ReasonView::Lazy(p, code),
        }
    }
}

impl Clone for Reason {
    fn clone(&self) -> (r: Reason)
        ensures
            r@ == self@,
    {
        match self {
            Reason::Decision => Reason::Decision,
            Reason::RootLevel => Reason::RootLevel,
            Reason::Eager(conjunction) => Reason::Eager(conjunction.clone()),
            Reason::Lazy(propagator, code) => Reason::Lazy(*propagator, *code),
        }
    }
}

} // verus!
