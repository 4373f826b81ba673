//! What the search asks of the code that picks its decisions.

use vstd::prelude::*;
use crate::assignments::Assignments;
use crate::predicate::Predicate;
use crate::solution::Solution;

verus! {

/// Picks the decisions of the search and is told what the search finds.
pub trait Brancher {
    /// The next decision; `None` where there is nothing left to decide.
    fn next_decision(&mut self, assignments: &Assignments) -> (r: Option<Predicate>)
        requires
            assignments.wf(),
    ;

    /// Called for each predicate that conflict analysis meets.
    fn on_appearance_in_conflict_predicate(&mut self, predicate: Predicate) {
    }

    /// Called after the search went back to `level`.
    fn on_backtrack(&mut self, level: usize) {
    }

    /// Called for each solution that the search finds.
    fn on_solution(&mut self, solution: &Solution) {
    }
}

} // verus!
