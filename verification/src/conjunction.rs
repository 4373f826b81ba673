//! Conjunctions of predicates: reasons, conflicts and nogood bodies.

use vstd::prelude::*;
use vstd::std_specs::cmp::PartialEqSpecImpl;
use vstd::std_specs::convert::FromSpecImpl;
use crate::predicate::Predicate;

verus! {

/// An ordered sequence of predicates that is read as their logical AND. Two
/// conjunctions are equal when they hold the same predicates, in whatever
/// order and however often.
#[derive(Debug)]
pub struct PropositionalConjunction {
    predicates_in_conjunction: Vec<Predicate>,
}

impl View for PropositionalConjunction {
    type V = Seq<Predicate>;

    closed spec fn view(&self) -> Seq<Predicate> {
        self.predicates_in_conjunction@
    }
}

/// Whether every element of `a` occurs in `b`.
pub open spec fn seq_subset(a: Seq<Predicate>, b: Seq<Predicate>) -> bool {
    forall|i: int| 0 <= i < a.len() ==> b.contains(#[trigger] a[i])
}

/// Whether two sequences hold the same predicates.
pub open spec fn same_predicates(a: Seq<Predicate>, b: Seq<Predicate>) -> bool {
    seq_subset(a, b) && seq_subset(b, a)
}

fn vec_contains(v: &Vec<Predicate>, p: Predicate) -> (r: bool)
    ensures
        r == v@.contains(p),
{
    let mut i: usize = 0;
    while i < v.len()
        invariant
            i <= v.len(),
            forall|k: int| 0 <= k < i ==> v@[k] != p,
        decreases v.len() - i,
    {
        if v[i] == p {
            return true;
        }
        i += 1;
    }
    false
}

fn vec_subset(a: &Vec<Predicate>, b: &Vec<Predicate>) -> (r: bool)
    ensures
        r == seq_subset(a@, b@),
{
    let mut i: usize = 0;
    while i < a.len()
        invariant
            i <= a.len(),
            forall|k: int| 0 <= k < i ==> b@.contains(#[trigger] a@[k]),
        decreases a.len() - i,
    {
        if !vec_contains(b, a[i]) {
            return false;
        }
        i += 1;
    }
    true
}

impl PropositionalConjunction {
    pub fn new(predicates_in_conjunction: Vec<Predicate>) -> (r: PropositionalConjunction)
        ensures
            r@ == predicates_in_conjunction@,
    {
        PropositionalConjunction { predicates_in_conjunction }
    }

    /// The conjunction of no predicate, which is true.
    pub fn empty() -> (r: PropositionalConjunction)
        ensures
            r@ == Seq::<Predicate>::empty(),
    {
        PropositionalConjunction { predicates_in_conjunction: Vec::new() }
    }

    pub fn len(&self) -> (r: usize)
        ensures
            r == self@.len(),
    {
        self.predicates_in_conjunction.len()
    }

    pub fn is_empty(&self) -> (r: bool)
        ensures
            r == (self@.len() == 0),
    {
        self.predicates_in_conjunction.len() == 0
    }

    pub fn get(&self, index: usize) -> (r: Predicate)
        requires
            index < self@.len(),
        ensures
            r == self@[index as int],
    {
        self.predicates_in_conjunction[index]
    }

    pub fn contains(&self, predicate: Predicate) -> (r: bool)
        ensures
            r == self@.contains(predicate),
    {
        vec_contains(&self.predicates_in_conjunction, predicate)
    }

    /// Appends one predicate.
    pub fn add(&mut self, predicate: Predicate)
        ensures
            final(self)@ == old(self)@.push(predicate),
    {
        self.predicates_in_conjunction.push(predicate);
    }

    /// The predicates in the order in which they were given.
    pub fn to_vec(&self) -> (r: Vec<Predicate>)
        ensures
            r@ == self@,
    {
        let mut out: Vec<Predicate> = Vec::new();
        let mut i: usize = 0;
        while i < self.predicates_in_conjunction.len()
            invariant
                i <= self.predicates_in_conjunction.len(),
                out@ == self.predicates_in_conjunction@.take(i as int),
            decreases self.predicates_in_conjunction.len() - i,
        {
            out.push(self.predicates_in_conjunction[i]);
            proof {
                assert(self.predicates_in_conjunction@.take(i + 1) =~= self.predicates_in_conjunction@.take(
                    i as int,
                ).push(self.predicates_in_conjunction@[i as int]));
            }
            i += 1;
        }
        proof {
            assert(self.predicates_in_conjunction@.take(i as int) =~= self.predicates_in_conjunction@);
        }
        out
    }

    /// Whether the two conjunctions hold the same predicates.
    pub fn equals(&self, other: &PropositionalConjunction) -> (r: bool)
        ensures
            r == same_predicates(self@, other@),
    {
        vec_subset(&self.predicates_in_conjunction, &other.predicates_in_conjunction)
            && vec_subset(&other.predicates_in_conjunction, &self.predicates_in_conjunction)
    }
}

impl PartialEq for PropositionalConjunction {
    fn eq(&self, other: &PropositionalConjunction) -> (r: bool) {
        self.equals(other)
    }
}

impl Eq for PropositionalConjunction {}

impl PartialEqSpecImpl for PropositionalConjunction {
    open spec fn obeys_eq_spec() -> bool {
        true
    }

    open spec fn eq_spec(&self, other: &PropositionalConjunction) -> bool {
        same_predicates(self@, other@)
    }
}

impl Clone for PropositionalConjunction {
    fn clone(&self) -> (r: PropositionalConjunction)
        ensures
            r@ == self@,
    {
        PropositionalConjunction { predicates_in_conjunction: self.to_vec() }
    }
}

impl From<Predicate> for PropositionalConjunction {
    fn from(predicate: Predicate) -> (r: PropositionalConjunction)
        ensures
            r@ == seq![predicate],
    {
        let mut predicates_in_conjunction: Vec<Predicate> = Vec::new();
        predicates_in_conjunction.push(predicate);
        PropositionalConjunction { predicates_in_conjunction }
    }
}

impl FromSpecImpl<Predicate> for PropositionalConjunction {
    open spec fn obeys_from_spec() -> bool {
        false
    }

    open spec fn from_spec(predicate: Predicate) -> PropositionalConjunction {
        arbitrary()
    }
}

impl From<Vec<Predicate>> for PropositionalConjunction {
    fn from(predicates: Vec<Predicate>) -> (r: PropositionalConjunction)
        ensures
            r@ == predicates@,
    {
        PropositionalConjunction { predicates_in_conjunction: predicates }
    }
}

impl FromSpecImpl<Vec<Predicate>> for PropositionalConjunction {
    open spec fn obeys_from_spec() -> bool {
        true
    }

    open spec fn from_spec(predicates: Vec<Predicate>) -> PropositionalConjunction {
        conjunction_over(predicates)
    }
}

/// The conjunction that keeps the given vector as it is.
pub closed spec fn conjunction_over(predicates: Vec<Predicate>) -> PropositionalConjunction {
    PropositionalConjunction { predicates_in_conjunction: predicates }
}

} // verus!
