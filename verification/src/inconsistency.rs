//! What a propagator reports when the current domains admit no solution.

use vstd::prelude::*;
use vstd::std_specs::convert::FromSpecImpl;
use crate::assignments::Assignments;
use crate::conjunction::PropositionalConjunction;
use crate::predicate::Predicate;

verus! {

/// The failure of a propagation.
#[derive(Debug)]
pub enum Inconsistency {
    /// The store rejected the change `predicate`, which was posted with
    /// `reason`: it would have left the variable without a value.
    EmptyDomain { predicate: Predicate, reason: PropositionalConjunction },
    /// The propagator found that the predicates of `conflict_nogood` cannot
    /// hold together.
    Conflict { conflict_nogood: PropositionalConjunction },
}

/// The result of a propagation.
pub type PropagationStatusCP = Result<(), Inconsistency>;

impl Inconsistency {
    /// The predicates that together are inconsistent: the conflict itself,
    /// or the reason of the rejected change with the negation of the change.
    pub open spec fn nogood(self) -> Seq<Predicate> {
        match self {
            Inconsistency::EmptyDomain { predicate, reason } => reason@.push(predicate.negation()),
            Inconsistency::Conflict { conflict_nogood } => conflict_nogood@,
        }
    }

    /// Whether the inconsistency is one of `store`: the store satisfies each
    /// predicate of a conflict; it satisfies the reason of a rejected change
    /// and admits no value that meets the change.
    pub open spec fn holds_in(self, store: &Assignments) -> bool {
        match self {
            Inconsistency::EmptyDomain { predicate, reason } => store.entails(reason@)
                && store.falsifies(predicate),
            Inconsistency::Conflict { conflict_nogood } => store.entails(conflict_nogood@),
        }
    }

    /// Turns the inconsistency into the conjunction that conflict analysis
    /// starts from.
    pub fn into_conflict_nogood(self) -> (r: PropositionalConjunction)
        ensures
            r@ == self.nogood(),
    {
        match self {
            Inconsistency::EmptyDomain { predicate, reason } => {
                let mut nogood = reason;
                nogood.add(predicate.negate());
                nogood
            },
            Inconsistency::Conflict { conflict_nogood } => conflict_nogood,
        }
    }
}

/// The store in which an inconsistency holds satisfies every predicate of
/// its nogood.
pub proof fn lemma_nogood_entailed(inconsistency: Inconsistency, store: &Assignments)
    requires
        store.wf(),
        inconsistency.holds_in(store),
    ensures
        store.entails(inconsistency.nogood()),
{
    match inconsistency {
        Inconsistency::EmptyDomain { predicate, reason } => {
            let n = store.trail_len() as int;
            let negated = predicate.negation();
            assert forall|v: int| #[trigger]
                store.contains_at(n, negated.domain(), v) implies negated.holds(v) by {
                store.lemma_bounds(n, predicate.domain());
                assert(store.contains(predicate.domain(), v));
                crate::predicate::lemma_double_negation(predicate, v);
            }
            assert forall|k: int| 0 <= k < inconsistency.nogood().len() implies store.satisfies(
                #[trigger] inconsistency.nogood()[k],
            ) by {
                if k < reason@.len() {
                    assert(inconsistency.nogood()[k] == reason@[k]);
                }
            }
        },
        Inconsistency::Conflict { .. } => {},
    }
}

impl From<PropositionalConjunction> for Inconsistency {
    fn from(conflict_nogood: PropositionalConjunction) -> (r: Inconsistency) {
        Inconsistency::Conflict { conflict_nogood }
    }
}

impl FromSpecImpl<PropositionalConjunction> for Inconsistency {
    open spec fn obeys_from_spec() -> bool {
        true
    }

    open spec fn from_spec(conflict_nogood: PropositionalConjunction) -> Inconsistency {
        Inconsistency::Conflict { conflict_nogood }
    }
}

} // verus!
