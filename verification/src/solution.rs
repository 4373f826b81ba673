//! A solution: one value for each variable.

use vstd::prelude::*;
use crate::assignments::Assignments;
use crate::literal::Literal;
use crate::predicate::{DomainId, Predicate};

verus! {

/// A read-only mapping from each variable to its assigned value.
#[derive(Debug)]
pub struct Solution {
    values: Vec<i32>,
}

impl Solution {
    /// The number of variables of the solution.
    pub closed spec fn num_domains(&self) -> nat {
        self.values.len() as nat
    }

    /// The value of `x`.
    pub closed spec fn value(&self, x: DomainId) -> int {
        self.values[x.index()] as int
    }

    /// Whether the value of `p`'s variable meets `p`.
    pub open spec fn satisfies(&self, p: Predicate) -> bool {
        p.holds(self.value(p.domain()))
    }

    /// The solution that gives the variables the values of `values`, in
    /// order.
    pub fn new(values: Vec<i32>) -> (r: Solution)
        ensures
            r.num_domains() == values.len(),
            forall|x: DomainId| x.index() < values.len() ==> r.value(x) == values[x.index()],
    {
        Solution { values }
    }

    /// The solution that a store describes in which every variable is fixed.
    pub fn from_assignments(assignments: &Assignments) -> (r: Solution)
        requires
            assignments.wf(),
            forall|x: DomainId| assignments.has(x) ==> assignments.is_fixed(x),
        ensures
            r.num_domains() == assignments.num_domains(),
            forall|x: DomainId|
                assignments.has(x) ==> assignments.contains(x, #[trigger] r.value(x)),
    {
        let mut values: Vec<i32> = Vec::new();
        let mut i: usize = 0;
        let n = assignments.get_num_domains();
        while i < n
            invariant
                assignments.wf(),
                forall|x: DomainId| assignments.has(x) ==> assignments.is_fixed(x),
                n == assignments.num_domains(),
                i <= n,
                values.len() == i,
                forall|k: int|
                    0 <= k < i ==> assignments.contains(
                        DomainId { id: k as u32 },
                        #[trigger] values[k] as int,
                    ),
            decreases n - i,
        {
            proof {
                assignments.lemma_num_domains();
            }
            let x = DomainId::new(i as u32);
            values.push(assignments.get_assigned_value(x));
            i += 1;
        }
        proof {
            assert forall|x: DomainId| assignments.has(x) implies assignments.contains(
                x,
                #[trigger] values[x.index()] as int,
            ) by {
                assert(x == DomainId { id: x.index() as u32 });
            }
        }
        Solution { values }
    }

    pub fn get_num_domains(&self) -> (r: usize)
        ensures
            r == self.num_domains(),
    {
        self.values.len()
    }

    pub fn get_integer_value(&self, x: DomainId) -> (r: i32)
        requires
            x.index() < self.num_domains(),
        ensures
            r == self.value(x),
    {
        self.values[x.id as usize]
    }

    pub fn get_literal_value(&self, literal: Literal) -> (r: bool)
        requires
            literal.predicate().domain().index() < self.num_domains(),
        ensures
            r == self.satisfies(literal.predicate()),
    {
        let value = self.values[literal.get_domain().id as usize];
        match literal.get_predicate() {
            Predicate::LowerBound { lower_bound, .. } => value >= lower_bound,
            Predicate::UpperBound { upper_bound, .. } => value <= upper_bound,
            Predicate::NotEqual { not_equal_constant, .. } => value != not_equal_constant,
            Predicate::Equal { equality_constant, .. } => value == equality_constant,
        }
    }
}

} // verus!
