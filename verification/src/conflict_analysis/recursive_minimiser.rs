//! Recursive minimisation: a predicate of a nogood that follows from the
//! other predicates of the nogood is left out.

use vstd::prelude::*;
use crate::assignments::Assignments;
use crate::conflict_analysis::semantic_minimiser::in_store;
use crate::predicate::{legal_value, Predicate};

verus! {

/// Whether `r` is seen to imply `q` from the kinds and constants of the two
/// predicates, which speak of one variable.
pub open spec fn subsumes(r: Predicate, q: Predicate) -> bool {
    r.domain() == q.domain() && match r {
        Predicate::LowerBound { lower_bound: a, .. } => match q {
            Predicate::LowerBound { lower_bound: b, .. } => a >= b,
            Predicate::NotEqual { not_equal_constant: c, .. } => c < a,
            _ => false,
        },
        Predicate::UpperBound { upper_bound: a, .. } => match q {
            Predicate::UpperBound { upper_bound: b, .. } => a <= b,
            Predicate::NotEqual { not_equal_constant: c, .. } => c > a,
            _ => false,
        },
        Predicate::Equal { equality_constant: a, .. } => q.holds(a as int),
        Predicate::NotEqual { not_equal_constant: a, .. } => match q {
            Predicate::NotEqual { not_equal_constant: c, .. } => a == c,
            _ => false,
        },
    }
}

/// A predicate that subsumes another implies it.
pub proof fn lemma_subsumes_implies(r: Predicate, q: Predicate)
    requires
        subsumes(r, q),
    ensures
        r.implies(q),
{
    assert forall|v: int| legal_value(v) && r.holds(v) implies #[trigger] q.holds(v) by {}
}

/// Whether `r` subsumes `q`.
pub fn is_subsumed_by(q: Predicate, r: Predicate) -> (b: bool)
    ensures
        b == subsumes(r, q),
{
    if r.get_domain() != q.get_domain() {
        return false;
    }
    match r {
        Predicate::LowerBound { lower_bound: a, .. } => match q {
            Predicate::LowerBound { lower_bound: b, .. } => a >= b,
            Predicate::NotEqual { not_equal_constant: c, .. } => c < a,
            _ => false,
        },
        Predicate::UpperBound { upper_bound: a, .. } => match q {
            Predicate::UpperBound { upper_bound: b, .. } => a <= b,
            Predicate::NotEqual { not_equal_constant: c, .. } => c > a,
            _ => false,
        },
        Predicate::Equal { equality_constant: a, .. } => match q {
            Predicate::LowerBound { lower_bound: b, .. } => a >= b,
            Predicate::UpperBound { upper_bound: b, .. } => a <= b,
            Predicate::NotEqual { not_equal_constant: c, .. } => a != c,
            Predicate::Equal { equality_constant: c, .. } => a == c,
        },
        Predicate::NotEqual { not_equal_constant: a, .. } => match q {
            Predicate::NotEqual { not_equal_constant: c, .. } => a == c,
            _ => false,
        },
    }
}

/// Whether `q` needs no place in the nogood: it holds at the root, or a
/// predicate of the nogood that became true no later subsumes it, or it is
/// dominated itself.
pub open spec fn covered(store: &Assignments, nogood: Seq<Predicate>, q: Predicate, depth: nat) -> bool
    decreases depth, 1int,
{
    ||| store.decision_level_of(q) == Some(0int)
    ||| exists|t: int|
        0 <= t < nogood.len() && subsumes(#[trigger] nogood[t], q) && store.key_of(nogood[t])
            <= store.key_of(q)
    ||| dominated(store, nogood, q, depth)
}

/// Whether `p` follows from the nogood: it has an explanation, each
/// predicate of which is covered, within `depth` steps from explanation to
/// explanation.
pub open spec fn dominated(store: &Assignments, nogood: Seq<Predicate>, p: Predicate, depth: nat) -> bool
    decreases depth, 0int,
{
    depth > 0 && store.explanation(p) is Some && forall|k: int|
        0 <= k < store.explanation(p)->0.len() ==> covered(
            store,
            nogood,
            #[trigger] store.explanation(p)->0[k],
            (depth - 1) as nat,
        )
}

/// The predicates of `nogood` that do not follow from the others within
/// `depth` steps, in their order.
pub open spec fn undominated(store: &Assignments, nogood: Seq<Predicate>, depth: nat) -> Seq<
    Predicate,
> {
    nogood.filter(|p: Predicate| !dominated(store, nogood, p, depth))
}

/// Leaves out of a nogood the predicates that follow from the others.
#[derive(Clone, Copy, Debug)]
pub struct RecursiveMinimiser {
    /// How many explanations deep a predicate is traced.
    depth: u32,
}

impl Default for RecursiveMinimiser {
    fn default() -> (r: RecursiveMinimiser)
        ensures
            r.depth() == 8,
    {
        RecursiveMinimiser { depth: 8 }
    }
}

impl RecursiveMinimiser {
    /// How many explanations deep a predicate is traced.
    pub closed spec fn depth(&self) -> nat {
        self.depth as nat
    }

    pub fn new(depth: u32) -> (r: RecursiveMinimiser)
        ensures
            r.depth() == depth,
    {
        RecursiveMinimiser { depth }
    }

    /// The place of `p` in the order in which predicates became true.
    fn key(assignments: &Assignments, p: Predicate) -> (r: Option<u128>)
        requires
            assignments.wf(),
            assignments.has(p.domain()),
        ensures
            match r {
                Some(key) => key == assignments.key_of(p),
                None => assignments.key_of(p) == -1,
            },
    {
        match assignments.get_trail_position(p) {
            Some(i) => {
                let explicit = assignments.get_trail_entry(i).predicate == p;
                Some(
                    (i as u128) * 2 + if explicit {
                        0
                    } else {
                        1
                    },
                )
            },
            None => None,
        }
    }

    fn is_covered(
        assignments: &Assignments,
        nogood: &Vec<Predicate>,
        q: Predicate,
        depth: u32,
    ) -> (r: bool)
        requires
            assignments.wf(),
            in_store(nogood@, assignments),
            assignments.has(q.domain()),
        ensures
            r == covered(assignments, nogood@, q, depth as nat),
        decreases depth, 1int,
    {
        match assignments.get_decision_level_for_predicate(q) {
            Some(level) => {
                if level == 0 {
                    return true;
                }
            },
            None => {},
        }
        let key = Self::key(assignments, q);
        let mut t: usize = 0;
        while t < nogood.len()
            invariant
                assignments.wf(),
                in_store(nogood@, assignments),
                assignments.has(q.domain()),
                t <= nogood.len(),
                match key {
                    Some(value) => value == assignments.key_of(q),
                    None => assignments.key_of(q) == -1,
                },
                forall|u: int|
                    0 <= u < t ==> !(subsumes(#[trigger] nogood@[u], q) && assignments.key_of(
                        nogood@[u],
                    ) <= assignments.key_of(q)),
            decreases nogood.len() - t,
        {
            if is_subsumed_by(q, nogood[t]) {
                let earlier = match (Self::key(assignments, nogood[t]), key) {
                    (None, _) => true,
                    (Some(a), Some(b)) => a <= b,
                    (Some(_), None) => false,
                };
                if earlier {
                    return true;
                }
            }
            t += 1;
        }
        Self::is_dominated(assignments, nogood, q, depth)
    }

    fn is_dominated(
        assignments: &Assignments,
        nogood: &Vec<Predicate>,
        p: Predicate,
        depth: u32,
    ) -> (r: bool)
        requires
            assignments.wf(),
            in_store(nogood@, assignments),
            assignments.has(p.domain()),
        ensures
            r == dominated(assignments, nogood@, p, depth as nat),
        decreases depth, 0int,
    {
        if depth == 0 {
            return false;
        }
        match assignments.get_propagation_reason(p) {
            Some(reason) => {
                let mut k: usize = 0;
                while k < reason.len()
                    invariant
                        assignments.wf(),
                        in_store(nogood@, assignments),
                        assignments.has(p.domain()),
                        depth > 0,
                        assignments.explanation(p) == Some(reason@),
                        k <= reason.len(),
                        forall|u: int|
                            0 <= u < k ==> covered(
                                assignments,
                                nogood@,
                                #[trigger] reason@[u],
                                (depth - 1) as nat,
                            ),
                    decreases reason.len() - k,
                {
                    proof {
                        assignments.lemma_explanation_earlier(p, k as int);
                    }
                    if !Self::is_covered(assignments, nogood, reason[k], depth - 1) {
                        return false;
                    }
                    k += 1;
                }
                true
            },
            None => false,
        }
    }

    /// Removes from `nogood` each predicate that is dominated in it, and
    /// returns how many were removed. The others keep their order.
    pub fn remove_dominated_predicates(
        &mut self,
        nogood: &mut Vec<Predicate>,
        assignments: &Assignments,
    ) -> (removed: usize)
        requires
            assignments.wf(),
            in_store(old(nogood)@, assignments),
        ensures
            *final(self) == *old(self),
            final(nogood)@ == old(nogood)@.filter(
                |p: Predicate| !dominated(assignments, old(nogood)@, p, old(self).depth()),
            ),
            final(nogood)@ == undominated(assignments, old(nogood)@, old(self).depth()),
            removed == old(nogood)@.len() - final(nogood)@.len(),
    {
        let ghost all = nogood@;
        let ghost keep = |p: Predicate| !dominated(assignments, all, p, self.depth());
        let mut kept: Vec<Predicate> = Vec::new();
        let mut i: usize = 0;
        proof {
            reveal(Seq::filter);
            assert(all.take(0) =~= Seq::<Predicate>::empty());
        }
        while i < nogood.len()
            invariant
                assignments.wf(),
                all == nogood@,
                in_store(all, assignments),
                keep == |p: Predicate| !dominated(assignments, all, p, self.depth()),
                i <= all.len(),
                kept@ == all.take(i as int).filter(keep),
                kept@.len() <= i,
            decreases all.len() - i,
        {
            let predicate = nogood[i];
            proof {
                assert(all.take(i + 1).drop_last() =~= all.take(i as int));
                assert(all.take(i + 1).last() == predicate);
            }
            let drop = Self::is_dominated(assignments, nogood, predicate, self.depth);
            if !drop {
                kept.push(predicate);
            }
            proof {
                reveal(Seq::filter);
                let next = all.take(i + 1);
                assert(keep(predicate) == !drop);
                assert(next.filter(keep) == if keep(next.last()) {
                    next.drop_last().filter(keep).push(next.last())
                } else {
                    next.drop_last().filter(keep)
                });
            }
            i += 1;
        }
        proof {
            assert(all.take(i as int) =~= all);
        }
        let removed = nogood.len() - kept.len();
        *nogood = kept;
        removed
    }
}

} // verus!
