//! The access to the domains that the engine grants a propagator.

use vstd::prelude::*;
use crate::assignments::Assignments;
use crate::conjunction::PropositionalConjunction;
use crate::identifiers::PropagatorId;
use crate::inconsistency::Inconsistency;
use crate::literal::Literal;
use crate::predicate::{DomainId, Predicate};
use crate::reason::{Reason, ReasonView};

verus! {

/// Whether `c` holds the predicates of `block` as one stretch.
pub open spec fn holds_block(c: Seq<Predicate>, block: Seq<Predicate>) -> bool {
    exists|at: int|
        0 <= at && at + block.len() <= c.len() && #[trigger] c.subrange(at, at + block.len())
            == block
}

/// A conjunction that holds a stretch of predicates holds each stretch at
/// its beginning.
pub proof fn lemma_holds_block_prefix(c: Seq<Predicate>, block: Seq<Predicate>, n: int)
    requires
        holds_block(c, block),
        0 <= n <= block.len(),
    ensures
        holds_block(c, block.take(n)),
{
    let at = choose|at: int|
        0 <= at && at + block.len() <= c.len() && #[trigger] c.subrange(at, at + block.len())
            == block;
    assert(c.subrange(at, at + n) =~= block.take(n));
    assert(block.take(n).len() == n);
}


/// Read access to the domains.
#[derive(Clone, Copy)]
pub struct PropagationContext<'a> {
    assignments: &'a Assignments,
}

impl<'a> PropagationContext<'a> {
    /// The store that the context reads.
    pub closed spec fn store(&self) -> &Assignments {
        self.assignments
    }

    pub fn new(assignments: &'a Assignments) -> (r: PropagationContext<'a>)
        ensures
            r.store() == assignments,
    {
        PropagationContext { assignments }
    }

    pub fn assignments(&self) -> (r: &'a Assignments)
        ensures
            r == self.store(),
    {
        self.assignments
    }

    pub fn lower_bound(&self, var: &DomainId) -> (r: i32)
        requires
            self.store().wf(),
            self.store().has(*var),
        ensures
            r == self.store().lower(*var),
    {
        self.assignments.get_lower_bound(*var)
    }

    pub fn upper_bound(&self, var: &DomainId) -> (r: i32)
        requires
            self.store().wf(),
            self.store().has(*var),
        ensures
            r == self.store().upper(*var),
    {
        self.assignments.get_upper_bound(*var)
    }

    pub fn contains(&self, var: &DomainId, value: i32) -> (r: bool)
        requires
            self.store().wf(),
            self.store().has(*var),
        ensures
            r == self.store().contains(*var, value as int),
    {
        self.assignments.is_value_in_domain(*var, value)
    }

    pub fn is_fixed(&self, var: &DomainId) -> (r: bool)
        requires
            self.store().wf(),
            self.store().has(*var),
        ensures
            r == self.store().is_fixed(*var),
    {
        self.assignments.is_domain_assigned(*var)
    }

    pub fn is_predicate_satisfied(&self, predicate: Predicate) -> (r: bool)
        requires
            self.store().wf(),
            self.store().has(predicate.domain()),
        ensures
            r == self.store().satisfies(predicate),
    {
        self.assignments.is_predicate_satisfied(predicate)
    }

    pub fn is_literal_true(&self, literal: Literal) -> (r: bool)
        requires
            self.store().wf(),
            self.store().has(literal.predicate().domain()),
        ensures
            r == self.store().satisfies(literal.predicate()),
    {
        self.assignments.is_predicate_satisfied(literal.get_predicate())
    }

    pub fn is_literal_false(&self, literal: Literal) -> (r: bool)
        requires
            self.store().wf(),
            self.store().has(literal.predicate().domain()),
        ensures
            r == self.store().falsifies(literal.predicate()),
    {
        self.assignments.is_predicate_falsified(literal.get_predicate())
    }

    pub fn is_literal_fixed(&self, literal: Literal) -> (r: bool)
        requires
            self.store().wf(),
            self.store().has(literal.predicate().domain()),
        ensures
            r == (self.store().satisfies(literal.predicate()) || self.store().falsifies(
                literal.predicate(),
            )),
    {
        self.assignments.is_predicate_satisfied(literal.get_predicate())
            || self.assignments.is_predicate_falsified(literal.get_predicate())
    }
}

/// Read and write access to the domains, for one run of one propagator.
/// Every change is recorded on the trail with the conjunction that the
/// propagator gives as its reason, to which the context adds the
/// reification literals under which the propagator runs.
pub struct PropagationContextMut {
    assignments: Assignments,
    reification_literals: Vec<Literal>,
    propagator: PropagatorId,
}

impl PropagationContextMut {
    /// The store that the context reads and changes.
    pub closed spec fn store(&self) -> &Assignments {
        &self.assignments
    }

    /// The literals under which the propagator runs.
    pub closed spec fn reification(&self) -> Seq<Literal> {
        self.reification_literals@
    }

    /// The propagator that the context was made for.
    pub closed spec fn propagator(&self) -> PropagatorId {
        self.propagator
    }

    /// The predicates of the reification literals.
    pub open spec fn reification_predicates(&self) -> Seq<Predicate> {
        self.reification().map_values(|l: Literal| l.predicate())
    }

    /// The reason that is stored for a change that the propagator justifies
    /// by `reason`.
    pub open spec fn explained(&self, reason: Seq<Predicate>) -> Seq<Predicate> {
        reason + self.reification_predicates()
    }

    /// The store is well formed and satisfies the reification literals.
    pub open spec fn wf(&self) -> bool {
        self.store().wf() && self.store().entails(self.reification_predicates())
    }

    /// Whether each trail entry that came after `old`, and has a
    /// conjunction as its reason, has the predicates of the reification
    /// literals of `old` in that conjunction.
    pub open spec fn carries(&self, old: &PropagationContextMut) -> bool {
        forall|i: int|
            old.store().trail_len() <= i < self.store().trail_len() ==> (
            #[trigger] self.store().entry(i)).reason@ is Eager ==> holds_block(
                self.store().entry(i).reason@->Eager_0,
                old.reification_predicates(),
            )
    }

    /// Whether each trail entry that came after `old`, and has a
    /// conjunction as its reason, has the predicates of the reification
    /// literals of `old` and then `predicate` in that conjunction.
    pub open spec fn carries_also(&self, old: &PropagationContextMut, predicate: Predicate) -> bool {
        forall|i: int|
            old.store().trail_len() <= i < self.store().trail_len() ==> (
            #[trigger] self.store().entry(i)).reason@ is Eager ==> holds_block(
                self.store().entry(i).reason@->Eager_0,
                old.reification_predicates().push(predicate),
            )
    }

    /// A change through the context puts the predicates of the
    /// reification literals into its reason.
    pub proof fn lemma_changed_carries(
        &self,
        old: &PropagationContextMut,
        predicate: Predicate,
        reason: Seq<Predicate>,
        result: Result<(), Inconsistency>,
    )
        requires
            self.changed(old, predicate, reason, result),
        ensures
            self.carries(old),
    {
        let block = old.reification_predicates();
        let stored = old.explained(reason);
        assert forall|i: int|
            old.store().trail_len() <= i < self.store().trail_len() && (
            #[trigger] self.store().entry(i)).reason@ is Eager implies holds_block(
            self.store().entry(i).reason@->Eager_0,
            block,
        ) by {
            assert(self.store().entry(i).reason@ == ReasonView::Eager(stored));
            assert(stored.subrange(reason.len() as int, (reason.len() + block.len()) as int)
                =~= block);
        }
    }

    /// What came after a context that came after another came after the
    /// other.
    pub proof fn lemma_carries_chain(
        &self,
        middle: &PropagationContextMut,
        old: &PropagationContextMut,
    )
        requires
            self.store().extends(middle.store()),
            middle.store().extends(old.store()),
            middle.carries(old),
            self.carries(middle),
            middle.reification_predicates() == old.reification_predicates(),
        ensures
            self.carries(old),
    {
        assert forall|i: int|
            old.store().trail_len() <= i < self.store().trail_len() && (
            #[trigger] self.store().entry(i)).reason@ is Eager implies holds_block(
            self.store().entry(i).reason@->Eager_0,
            old.reification_predicates(),
        ) by {
            if i < middle.store().trail_len() {
                assert(self.store().entry(i) == middle.store().entry(i));
            }
        }
    }

    /// Whether `self` is `old` after some propagation: the store continues
    /// that of `old`, under the same reification literals.
    pub open spec fn continues(&self, old: &PropagationContextMut) -> bool {
        &&& self.store().extends(old.store())
        &&& self.reification() == old.reification()
        &&& self.propagator() == old.propagator()
    }

    /// A context for `propagator` on `assignments`, without reification.
    pub fn new(assignments: Assignments, propagator: PropagatorId) -> (r: PropagationContextMut)
        ensures
            *r.store() == assignments,
            r.reification() == Seq::<Literal>::empty(),
            r.propagator() == propagator,
    {
        PropagationContextMut { assignments, reification_literals: Vec::new(), propagator }
    }

    /// Gives the store back.
    pub fn into_assignments(self) -> (r: Assignments)
        ensures
            r == *self.store(),
    {
        self.assignments
    }

    pub fn assignments(&self) -> (r: &Assignments)
        ensures
            r == self.store(),
    {
        &self.assignments
    }

    pub fn as_readonly(&self) -> (r: PropagationContext<'_>)
        ensures
            r.store() == self.store(),
    {
        PropagationContext::new(&self.assignments)
    }

    /// Whether the store satisfies each predicate of `conjunction`.
    pub fn is_conjunction_entailed(&self, conjunction: &PropositionalConjunction) -> (r: bool)
        requires
            self.store().wf(),
        ensures
            r == self.store().entails(conjunction@),
    {
        self.assignments.is_conjunction_entailed(conjunction)
    }

    /// From now on the reasons of this context also hold `literal`, which
    /// must be true.
    pub fn with_reification(&mut self, literal: Literal)
        requires
            old(self).wf(),
            old(self).store().satisfies(literal.predicate()),
        ensures
            final(self).wf(),
            final(self).store() == old(self).store(),
            final(self).reification() == old(self).reification().push(literal),
            final(self).propagator() == old(self).propagator(),
    {
        self.reification_literals.push(literal);
        proof {
            let now = self.reification_predicates();
            let before = old(self).reification_predicates();
            assert forall|k: int| 0 <= k < now.len() implies self.store().satisfies(
                #[trigger] now[k],
            ) by {
                if k < before.len() {
                    assert(now[k] == before[k]);
                }
            }
        }
    }

    /// Ends the reification that was begun last.
    pub fn end_reification(&mut self)
        requires
            old(self).wf(),
            old(self).reification().len() > 0,
        ensures
            final(self).wf(),
            final(self).store() == old(self).store(),
            final(self).reification() == old(self).reification().drop_last(),
            final(self).propagator() == old(self).propagator(),
    {
        let _ = self.reification_literals.pop();
        proof {
            let now = self.reification_predicates();
            let before = old(self).reification_predicates();
            assert forall|k: int| 0 <= k < now.len() implies self.store().satisfies(
                #[trigger] now[k],
            ) by {
                assert(now[k] == before[k]);
            }
        }
    }

    pub fn lower_bound(&self, var: &DomainId) -> (r: i32)
        requires
            self.store().wf(),
            self.store().has(*var),
        ensures
            r == self.store().lower(*var),
    {
        self.assignments.get_lower_bound(*var)
    }

    pub fn upper_bound(&self, var: &DomainId) -> (r: i32)
        requires
            self.store().wf(),
            self.store().has(*var),
        ensures
            r == self.store().upper(*var),
    {
        self.assignments.get_upper_bound(*var)
    }

    pub fn contains(&self, var: &DomainId, value: i32) -> (r: bool)
        requires
            self.store().wf(),
            self.store().has(*var),
        ensures
            r == self.store().contains(*var, value as int),
    {
        self.assignments.is_value_in_domain(*var, value)
    }

    pub fn is_fixed(&self, var: &DomainId) -> (r: bool)
        requires
            self.store().wf(),
            self.store().has(*var),
        ensures
            r == self.store().is_fixed(*var),
    {
        self.assignments.is_domain_assigned(*var)
    }

    pub fn is_literal_true(&self, literal: Literal) -> (r: bool)
        requires
            self.store().wf(),
            self.store().has(literal.predicate().domain()),
        ensures
            r == self.store().satisfies(literal.predicate()),
    {
        self.assignments.is_predicate_satisfied(literal.get_predicate())
    }

    pub fn is_literal_false(&self, literal: Literal) -> (r: bool)
        requires
            self.store().wf(),
            self.store().has(literal.predicate().domain()),
        ensures
            r == self.store().falsifies(literal.predicate()),
    {
        self.assignments.is_predicate_falsified(literal.get_predicate())
    }

    pub fn is_literal_fixed(&self, literal: Literal) -> (r: bool)
        requires
            self.store().wf(),
            self.store().has(literal.predicate().domain()),
        ensures
            r == (self.store().satisfies(literal.predicate()) || self.store().falsifies(
                literal.predicate(),
            )),
    {
        self.assignments.is_predicate_satisfied(literal.get_predicate())
            || self.assignments.is_predicate_falsified(literal.get_predicate())
    }

    /// The reason that is stored for `reason`: its predicates, then those of
    /// the reification literals.
    fn explain(&self, reason: PropositionalConjunction) -> (r: PropositionalConjunction)
        ensures
            r@ == self.explained(reason@),
    {
        let mut full = reason;
        let mut i: usize = 0;
        while i < self.reification_literals.len()
            invariant
                i <= self.reification_literals.len(),
                full@ == reason@ + self.reification_predicates().take(i as int),
            decreases self.reification_literals.len() - i,
        {
            full.add(self.reification_literals[i].get_predicate());
            proof {
                let all = self.reification_predicates();
                assert(all.take(i + 1) =~= all.take(i as int).push(all[i as int]));
                assert(reason@ + all.take(i + 1) =~= (reason@ + all.take(i as int)).push(
                    all[i as int],
                ));
            }
            i += 1;
        }
        proof {
            let all = self.reification_predicates();
            assert(all.take(i as int) =~= all);
        }
        full
    }

    /// What every change through the context ensures: the store rejects the
    /// change exactly where it falsifies `predicate`, and then stays as it
    /// is; otherwise `predicate` is posted with the stored reason.
    pub open spec fn changed(
        &self,
        old: &PropagationContextMut,
        predicate: Predicate,
        reason: Seq<Predicate>,
        result: Result<(), Inconsistency>,
    ) -> bool {
        &&& self.wf()
        &&& self.continues(old)
        &&& (result is Err <==> old.store().falsifies(predicate))
        &&& match result {
            Err(e) => {
                &&& *self.store() == *old.store()
                &&& e matches Inconsistency::EmptyDomain { predicate: p, reason: c }
                &&& p == predicate
                &&& c@ == old.explained(reason)
            },
            Ok(_) => self.store().posted(
                old.store(),
                predicate,
                ReasonView::Eager(old.explained(reason)),
            ),
        }
    }

    /// Posts `predicate`, justified by `reason`.
    pub fn post_predicate(&mut self, predicate: Predicate, reason: PropositionalConjunction) -> (r:
        Result<(), Inconsistency>)
        requires
            old(self).wf(),
            old(self).store().has(predicate.domain()),
            old(self).store().entails(reason@),
        ensures
            final(self).changed(old(self), predicate, reason@, r),
    {
        let full = self.explain(reason);
        proof {
            let stored = self.explained(reason@);
            assert forall|k: int| 0 <= k < stored.len() implies self.store().satisfies(
                #[trigger] stored[k],
            ) by {
                if k < reason@.len() {
                    assert(stored[k] == reason@[k]);
                } else {
                    assert(stored[k] == self.reification_predicates()[k - reason@.len()]);
                }
            }
        }
        if self.assignments.is_predicate_falsified(predicate) {
            return Err(Inconsistency::EmptyDomain { predicate, reason: full });
        }
        let ghost before = self.assignments;
        let result = self.assignments.post_predicate(predicate, Reason::Eager(full));
        proof {
            assert(result is Ok);
            let now = self.reification_predicates();
            assert forall|k: int| 0 <= k < now.len() implies self.store().satisfies(
                #[trigger] now[k],
            ) by {
                let q = now[k];
                assert(before.satisfies(q));
                assert forall|v: int| #[trigger]
                    self.store().contains_at(
                        self.store().trail_len() as int,
                        q.domain(),
                        v,
                    ) implies q.holds(v) by {
                    assert(self.store().contains(q.domain(), v));
                    assert(before.contains(q.domain(), v));
                }
            }
        }
        Ok(())
    }

    /// Posts `predicate`, which the store does not falsify, with a reason
    /// that the propagator expands on demand from `code`. A context with
    /// reification literals takes no such reasons.
    pub fn post_predicate_lazy(&mut self, predicate: Predicate, code: u64)
        requires
            old(self).wf(),
            old(self).store().has(predicate.domain()),
            old(self).reification().len() == 0,
            !old(self).store().falsifies(predicate),
        ensures
            final(self).wf(),
            final(self).continues(old(self)),
            final(self).store().posted(
                old(self).store(),
                predicate,
                ReasonView::Lazy(old(self).propagator(), code),
            ),
    {
        let _ = self.assignments.post_predicate(predicate, Reason::Lazy(self.propagator, code));
        proof {
            assert(self.reification_predicates() =~= Seq::<Predicate>::empty());
        }
    }

    pub fn set_lower_bound(&mut self, var: &DomainId, bound: i32, reason: PropositionalConjunction)
        -> (r: Result<(), Inconsistency>)
        requires
            old(self).wf(),
            old(self).store().has(*var),
            old(self).store().entails(reason@),
        ensures
            final(self).changed(
                old(self),
                Predicate::LowerBound { domain_id: *var, lower_bound: bound },
                reason@,
                r,
            ),
    {
        self.post_predicate(Predicate::LowerBound { domain_id: *var, lower_bound: bound }, reason)
    }

    pub fn set_upper_bound(&mut self, var: &DomainId, bound: i32, reason: PropositionalConjunction)
        -> (r: Result<(), Inconsistency>)
        requires
            old(self).wf(),
            old(self).store().has(*var),
            old(self).store().entails(reason@),
        ensures
            final(self).changed(
                old(self),
                Predicate::UpperBound { domain_id: *var, upper_bound: bound },
                reason@,
                r,
            ),
    {
        self.post_predicate(Predicate::UpperBound { domain_id: *var, upper_bound: bound }, reason)
    }

    pub fn remove(&mut self, var: &DomainId, value: i32, reason: PropositionalConjunction) -> (r:
        Result<(), Inconsistency>)
        requires
            old(self).wf(),
            old(self).store().has(*var),
            old(self).store().entails(reason@),
        ensures
            final(self).changed(
                old(self),
                Predicate::NotEqual { domain_id: *var, not_equal_constant: value },
                reason@,
                r,
            ),
    {
        self.post_predicate(
            Predicate::NotEqual { domain_id: *var, not_equal_constant: value },
            reason,
        )
    }

    /// The predicate that makes `literal` true or false.
    pub open spec fn literal_predicate(literal: Literal, value: bool) -> Predicate {
        if value {
            literal.predicate()
        } else {
            literal.predicate().negation()
        }
    }

    /// Makes `literal` true or false, justified by `reason`.
    pub fn assign_literal(&mut self, literal: Literal, value: bool, reason: PropositionalConjunction)
        -> (r: Result<(), Inconsistency>)
        requires
            old(self).wf(),
            old(self).store().has(literal.predicate().domain()),
            old(self).store().entails(reason@),
        ensures
            final(self).changed(old(self), Self::literal_predicate(literal, value), reason@, r),
    {
        if value {
            self.post_predicate(literal.get_predicate(), reason)
        } else {
            self.post_predicate(literal.get_predicate().negate(), reason)
        }
    }
}

} // verus!
