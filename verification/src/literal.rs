//! Literals: predicates read as 0/1 variables.

use vstd::prelude::*;
use vstd::std_specs::convert::FromSpecImpl;
use crate::assignments::{Assignments, EmptyDomain};
use crate::predicate::{DomainId, Predicate};
use crate::propagation::domain_events::{IntDomainEvent, OpaqueDomainEvent};
use crate::reason::Reason;

verus! {

/// A predicate that is used as a Boolean: it is true where the store
/// satisfies the predicate, false where the store falsifies it, and
/// unassigned otherwise. As an integer variable it has the values 0 and 1.
#[derive(Debug, Clone, PartialEq, Eq, Structural, Copy, Hash)]
pub struct Literal {
    predicate: Predicate,
}

impl Literal {
    /// The predicate that the literal stands for.
    pub closed spec fn predicate(self) -> Predicate {
        self.predicate
    }

    /// The values that the literal has as a 0/1 variable in `assignment`.
    pub open spec fn has_value(self, assignment: &Assignments, value: int) -> bool {
        if assignment.satisfies(self.predicate()) {
            value == 1
        } else if assignment.falsifies(self.predicate()) {
            value == 0
        } else {
            value == 0 || value == 1
        }
    }

    pub fn new(predicate: Predicate) -> (r: Literal)
        ensures
            r.predicate() == predicate,
    {
        Literal { predicate }
    }

    pub fn get_predicate(&self) -> (r: Predicate)
        ensures
            r == self.predicate(),
    {
        self.predicate
    }

    pub fn get_domain(&self) -> (r: DomainId)
        ensures
            r == self.predicate().domain(),
    {
        self.predicate.get_domain()
    }

    /// The literal that is true exactly where this one is false.
    pub fn negate(&self) -> (r: Literal)
        ensures
            r.predicate() == self.predicate().negation(),
    {
        Literal { predicate: self.predicate.negate() }
    }

    /// Returns the lower bound represented as a 0-1 value.
    /// Literals that evaluate to true have a lower bound of 1.
    /// Literals that evaluate to false have a lower bound of 0.
    /// Unassigned literals have a lower bound of 0.
    pub fn lower_bound(&self, assignment: &Assignments) -> (r: i32)
        requires
            assignment.wf(),
            assignment.has(self.predicate().domain()),
        ensures
            r == if assignment.satisfies(self.predicate()) {
                1i32
            } else {
                0i32
            },
            self.has_value(assignment, r as int),
            forall|v: int| self.has_value(assignment, v) ==> r <= v,
    {
        match assignment.evaluate_predicate(self.predicate) {
            Some(truth_value) => if truth_value {
                1
            } else {
                0
            },
            None => 0,
        }
    }

    /// Returns the upper bound represented as a 0-1 value.
    /// Literals that evaluate to true have an upper bound of 1.
    /// Literals that evaluate to false have an upper bound of 0.
    /// Unassigned literals have an upper bound of 1.
    pub fn upper_bound(&self, assignment: &Assignments) -> (r: i32)
        requires
            assignment.wf(),
            assignment.has(self.predicate().domain()),
        ensures
            r == if assignment.falsifies(self.predicate()) {
                0i32
            } else {
                1i32
            },
            self.has_value(assignment, r as int),
            forall|v: int| self.has_value(assignment, v) ==> v <= r,
    {
        proof {
            lemma_not_both(assignment, self.predicate);
        }
        match assignment.evaluate_predicate(self.predicate) {
            Some(truth_value) => if truth_value {
                1
            } else {
                0
            },
            None => 1,
        }
    }

    /// Returns whether the input value, when interpreted as a bool, can be
    /// considered for the literal.
    /// Literals that evaluate to true only contain value 1.
    /// Literals that evaluate to false only contain value 0.
    /// Unassigned literals contain both values 0 and 1.
    pub fn contains(&self, assignment: &Assignments, value: i32) -> (r: bool)
        requires
            assignment.wf(),
            assignment.has(self.predicate().domain()),
            value == 0 || value == 1,
        ensures
            r == self.has_value(assignment, value as int),
    {
        proof {
            lemma_not_both(assignment, self.predicate);
        }
        match assignment.evaluate_predicate(self.predicate) {
            Some(truth_value) => truth_value && value == 1 || !truth_value && value == 0,
            None => true,
        }
    }

    /// Takes the value 0 or 1 from the literal: removing 0 makes it true,
    /// removing 1 makes it false.
    pub fn remove(&self, assignment: &mut Assignments, value: i32, reason: Reason) -> (r: Result<
        (),
        EmptyDomain,
    >)
        requires
            old(assignment).wf(),
            old(assignment).has(self.predicate().domain()),
            old(assignment).admits(reason@),
            value == 0 || value == 1,
        ensures
            final(assignment).wf(),
            r is Err <==> old(assignment).falsifies(self.removal_predicate(value as int)),
            r is Err ==> *final(assignment) == *old(assignment),
            r is Ok ==> final(assignment).posted(
                old(assignment),
                self.removal_predicate(value as int),
                reason@,
            ),
    {
        if value == 0 {
            assignment.post_predicate(self.predicate, reason)
        } else {
            assignment.post_predicate(self.predicate.negate(), reason)
        }
    }

    /// The predicate that is posted to take `value` from the literal.
    pub open spec fn removal_predicate(self, value: int) -> Predicate {
        if value == 0 {
            self.predicate()
        } else {
            self.predicate().negation()
        }
    }

    /// Setting the lower bound to 1 makes the literal true; 0 changes
    /// nothing.
    pub fn set_lower_bound(&self, assignment: &mut Assignments, value: i32, reason: Reason) -> (r:
        Result<(), EmptyDomain>)
        requires
            old(assignment).wf(),
            old(assignment).has(self.predicate().domain()),
            old(assignment).admits(reason@),
            value == 0 || value == 1,
        ensures
            final(assignment).wf(),
            value == 0 ==> r is Ok && *final(assignment) == *old(assignment),
            value == 1 ==> (r is Err <==> old(assignment).falsifies(self.predicate())),
            r is Err ==> *final(assignment) == *old(assignment),
            value == 1 && r is Ok ==> final(assignment).posted(
                old(assignment),
                self.predicate(),
                reason@,
            ),
    {
        if value == 0 {
            Ok(())
        } else {
            assignment.post_predicate(self.predicate, reason)
        }
    }

    /// Setting the upper bound to 0 makes the literal false; 1 changes
    /// nothing.
    pub fn set_upper_bound(&self, assignment: &mut Assignments, value: i32, reason: Reason) -> (r:
        Result<(), EmptyDomain>)
        requires
            old(assignment).wf(),
            old(assignment).has(self.predicate().domain()),
            old(assignment).admits(reason@),
            value == 0 || value == 1,
        ensures
            final(assignment).wf(),
            value == 1 ==> r is Ok && *final(assignment) == *old(assignment),
            value == 0 ==> (r is Err <==> old(assignment).falsifies(
                self.predicate().negation(),
            )),
            r is Err ==> *final(assignment) == *old(assignment),
            value == 0 && r is Ok ==> final(assignment).posted(
                old(assignment),
                self.predicate().negation(),
                reason@,
            ),
    {
        if value == 0 {
            assignment.post_predicate(self.predicate.negate(), reason)
        } else {
            Ok(())
        }
    }

    /// The predicate that no value violates, over the literal's variable.
    pub open spec fn trivially_true(self) -> Predicate {
        Predicate::LowerBound { domain_id: self.predicate().domain(), lower_bound: i32::MIN }
    }

    /// The predicate that says that the literal, as a 0/1 variable, is at
    /// least `bound`.
    pub fn lower_bound_predicate(&self, bound: i32) -> (r: Predicate)
        requires
            bound == 0 || bound == 1,
        ensures
            r == if bound == 0 {
                self.trivially_true()
            } else {
                self.predicate()
            },
    {
        if bound == 0 {
            // Asking for a predicate that represents the lower bound of zero
            // of a literal means asking for a trivially true predicate.
            let domain_id = self.predicate.get_domain();
            Predicate::LowerBound { domain_id, lower_bound: i32::MIN }
        } else {
            self.predicate
        }
    }

    /// The predicate that says that the literal, as a 0/1 variable, is at
    /// most `bound`.
    pub fn upper_bound_predicate(&self, bound: i32) -> (r: Predicate)
        requires
            bound == 0 || bound == 1,
        ensures
            r == if bound == 0 {
                self.predicate().negation()
            } else {
                self.trivially_true()
            },
    {
        if bound == 0 {
            self.predicate.negate()
        } else {
            // Asking for a predicate that represents the upper bound of one
            // of a literal means asking for a trivially true predicate.
            let domain_id = self.predicate.get_domain();
            Predicate::LowerBound { domain_id, lower_bound: i32::MIN }
        }
    }

    /// The predicate that says that the literal has the value `bound`.
    pub fn equality_predicate(&self, bound: i32) -> (r: Predicate)
        requires
            bound == 0 || bound == 1,
        ensures
            r == if bound == 0 {
                self.predicate().negation()
            } else {
                self.predicate()
            },
    {
        if bound == 0 {
            self.predicate.negate()
        } else {
            self.predicate
        }
    }

    /// The predicate that says that the literal does not have the value
    /// `bound`.
    pub fn disequality_predicate(&self, bound: i32) -> (r: Predicate)
        requires
            bound == 0 || bound == 1,
        ensures
            r == if bound == 0 {
                self.predicate()
            } else {
                self.predicate().negation()
            },
    {
        if bound == 0 {
            self.predicate
        } else {
            self.predicate.negate()
        }
    }

    /// The kind of change that `event` stands for.
    pub fn unpack_event(&self, event: OpaqueDomainEvent) -> (r: IntDomainEvent)
        ensures
            r == event.event(),
    {
        event.unwrap()
    }
}

/// Literals of one predicate are one literal.
pub proof fn lemma_literal_is_its_predicate(a: Literal, b: Literal)
    requires
        a.predicate() == b.predicate(),
    ensures
        a == b,
{
}

/// A store with a value left for each variable cannot both satisfy and
/// falsify a predicate.
pub proof fn lemma_not_both(assignment: &Assignments, p: Predicate)
    requires
        assignment.wf(),
        assignment.has(p.domain()),
    ensures
        !(assignment.satisfies(p) && assignment.falsifies(p)),
{
    assignment.lemma_bounds(assignment.trail_len() as int, p.domain());
    assert(assignment.contains(p.domain(), assignment.lower(p.domain())));
}

impl From<Literal> for Predicate {
    fn from(value: Literal) -> (r: Predicate) {
        value.predicate
    }
}

impl FromSpecImpl<Literal> for Predicate {
    open spec fn obeys_from_spec() -> bool {
        true
    }

    open spec fn from_spec(value: Literal) -> Predicate {
        value.predicate()
    }
}

} // verus!
