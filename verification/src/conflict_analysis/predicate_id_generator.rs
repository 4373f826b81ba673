//! Dense ids for the predicates that conflict analysis meets.

use vstd::prelude::*;
use crate::predicate::Predicate;

verus! {

/// The id of a predicate.
#[derive(Clone, Copy, Debug, PartialEq, Eq, Structural, Hash)]
pub struct PredicateId {
    pub id: usize,
}

/// Gives each predicate that it is asked about the next free id, and the
/// same id whenever it is asked again.
#[derive(Debug, Default)]
pub struct PredicateIdGenerator {
    predicates: Vec<Predicate>,
}

impl View for PredicateIdGenerator {
    type V = Seq<Predicate>;

    /// The predicate of each id.
    closed spec fn view(&self) -> Seq<Predicate> {
        self.predicates@
    }
}

impl PredicateIdGenerator {
    pub fn new() -> (r: PredicateIdGenerator)
        ensures
            r@ == Seq::<Predicate>::empty(),
    {
        PredicateIdGenerator { predicates: Vec::new() }
    }

    /// Forgets all ids.
    pub fn clear(&mut self)
        ensures
            final(self)@ == Seq::<Predicate>::empty(),
    {
        self.predicates.clear();
    }

    pub fn len(&self) -> (r: usize)
        ensures
            r == self@.len(),
    {
        self.predicates.len()
    }

    /// The first id of `predicate`, if it has one.
    pub fn find(&self, predicate: Predicate) -> (r: Option<PredicateId>)
        ensures
            match r {
                Some(id) => id.id < self@.len() && self@[id.id as int] == predicate && forall|
                    k: int,
                |
                    0 <= k < id.id ==> self@[k] != predicate,
                None => !self@.contains(predicate),
            },
    {
        let mut k: usize = 0;
        while k < self.predicates.len()
            invariant
                k <= self.predicates.len(),
                forall|t: int| 0 <= t < k ==> self.predicates@[t] != predicate,
            decreases self.predicates.len() - k,
        {
            if self.predicates[k] == predicate {
                return Some(PredicateId { id: k });
            }
            k += 1;
        }
        None
    }

    /// The id of `predicate`: its first id, or the next free id where it
    /// has none.
    pub fn get_id(&mut self, predicate: Predicate) -> (r: PredicateId)
        ensures
            r.id < final(self)@.len(),
            final(self)@[r.id as int] == predicate,
            forall|k: int| 0 <= k < r.id ==> final(self)@[k] != predicate,
            final(self)@ == if old(self)@.contains(predicate) {
                old(self)@
            } else {
                old(self)@.push(predicate)
            },
    {
        match self.find(predicate) {
            Some(id) => id,
            None => {
                self.predicates.push(predicate);
                PredicateId { id: self.predicates.len() - 1 }
            },
        }
    }

    /// The predicate of `id`, if the id was given out.
    pub fn get_predicate(&self, id: PredicateId) -> (r: Option<Predicate>)
        ensures
            r == if id.id < self@.len() {
                Some(self@[id.id as int])
            } else {
                None
            },
    {
        if id.id < self.predicates.len() {
            Some(self.predicates[id.id])
        } else {
            None
        }
    }

    /// Lets the first id of `predicate` stand for `replacement` from now on.
    /// Nothing changes where `predicate` has no id.
    pub fn replace_predicate(&mut self, predicate: Predicate, replacement: Predicate)
        ensures
            final(self)@.len() == old(self)@.len(),
            forall|k: int|
                0 <= k < old(self)@.len() ==> #[trigger] final(self)@[k] == if old(self)@[k]
                    == predicate && forall|t: int| 0 <= t < k ==> old(self)@[t] != predicate {
                    replacement
                } else {
                    old(self)@[k]
                },
    {
        match self.find(predicate) {
            Some(id) => {
                self.predicates[id.id] = replacement;
            },
            None => {},
        }
    }
}

} // verus!
