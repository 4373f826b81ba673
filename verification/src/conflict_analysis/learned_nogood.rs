//! The result of conflict analysis, and what it counts.

use vstd::prelude::*;
use crate::predicate::Predicate;

verus! {

/// A nogood that conflict analysis derived. Its predicates stand in the
/// order in which they became true, latest first; `backjump_level` is the
/// decision level at which the second of them became true, or the root
/// where there is no second.
#[derive(Debug)]
pub struct LearnedNogood {
    pub predicates: Vec<Predicate>,
    pub backjump_level: usize,
}

/// The sum of `a` and `b`, or the greatest count where the sum is greater.
pub open spec fn saturated(a: int, b: int) -> int {
    if a + b > u64::MAX {
        u64::MAX as int
    } else {
        a + b
    }
}

/// The sum of `a` and `b`, or the greatest number where the sum is greater.
pub fn saturating_sum(a: u64, b: u64) -> (r: u64)
    ensures
        r == saturated(a as int, b as int),
{
    if a > u64::MAX - b {
        u64::MAX
    } else {
        a + b
    }
}

/// What conflict analysis counts; each count stops at the greatest number.
#[derive(Clone, Copy, Debug, PartialEq, Eq, Structural)]
pub struct LearnedClauseStatistics {
    /// The number of conflicts that were analysed.
    pub num_conflicts: u64,
    /// The sum of the numbers of predicates above the root in the conflicts.
    pub total_conflict_size: u64,
    /// The sum of the lengths of the learned nogoods.
    pub total_learned_clause_length: u64,
    /// The number of predicates that semantic minimisation removed.
    pub num_semantic_removals: u64,
    /// The number of predicates that recursive minimisation removed.
    pub num_recursive_removals: u64,
    /// The sum of the numbers of levels that the learned nogoods jump back.
    pub total_backtrack_distance: u64,
    /// The sum of the numbers of distinct decision levels among the
    /// predicates of the learned nogoods.
    pub total_lbd: u64,
}

impl LearnedClauseStatistics {
    pub fn new() -> (r: LearnedClauseStatistics)
        ensures
            r == (LearnedClauseStatistics {
                num_conflicts: 0,
                total_conflict_size: 0,
                total_learned_clause_length: 0,
                num_semantic_removals: 0,
                num_recursive_removals: 0,
                total_backtrack_distance: 0,
                total_lbd: 0,
            }),
    {
        LearnedClauseStatistics {
            num_conflicts: 0,
            total_conflict_size: 0,
            total_learned_clause_length: 0,
            num_semantic_removals: 0,
            num_recursive_removals: 0,
            total_backtrack_distance: 0,
            total_lbd: 0,
        }
    }
}

/// The number of distinct values among `values`.
pub fn count_distinct(values: &Vec<usize>) -> (r: usize)
    ensures
        r == values@.to_set().len(),
{
    let mut count: usize = 0;
    let mut i: usize = 0;
    proof {
        assert(values@.take(0).to_set() =~= Set::<usize>::empty());
    }
    while i < values.len()
        invariant
            i <= values.len(),
            count <= i,
            count == values@.take(i as int).to_set().len(),
        decreases values.len() - i,
    {
        let value = values[i];
        let mut seen = false;
        let mut k: usize = 0;
        while k < i
            invariant
                k <= i <= values.len(),
                seen == exists|t: int| 0 <= t < k && values@[t] == value,
            decreases i - k,
        {
            if values[k] == value {
                seen = true;
            }
            k += 1;
        }
        proof {
            let before = values@.take(i as int);
            assert(values@.take(i + 1) =~= before.push(value));
            before.lemma_push_to_set_commute(value);
            vstd::seq_lib::seq_to_set_is_finite(before);
            if seen {
                let t = choose|t: int| 0 <= t < i && values@[t] == value;
                assert(before[t] == value);
                assert(before.to_set().contains(value));
                assert(before.to_set().insert(value) =~= before.to_set());
            } else {
                assert(!before.to_set().contains(value)) by {
                    if before.contains(value) {
                        let t = choose|t: int| 0 <= t < before.len() && before[t] == value;
                        assert(values@[t] == value);
                    }
                }
            }
        }
        if !seen {
            count += 1;
        }
        i += 1;
    }
    proof {
        assert(values@.take(i as int) =~= values@);
    }
    count
}

} // verus!
