//! Atomic predicates over integer variables.

use vstd::prelude::*;

verus! {

/// The dense index that identifies an integer variable of the solver.
#[derive(Clone, Copy, Debug, PartialEq, Eq, Structural, Hash)]
pub struct DomainId {
    pub id: u32,
}

impl DomainId {
    pub fn new(id: u32) -> (r: DomainId)
        ensures
            r.id == id,
    {
        DomainId { id }
    }

    pub open spec fn index(self) -> int {
        self.id as int
    }
}

/// Values that a variable may take. The two extreme machine integers are kept
/// out of every domain, so that each predicate has a complement among the
/// predicates.
pub open spec fn legal_value(v: int) -> bool {
    i32::MIN < v < i32::MAX
}

/// An atomic fact about one integer variable.
#[derive(Clone, Copy, Debug, PartialEq, Eq, Structural, Hash)]
pub enum Predicate {
    /// `[x >= lower_bound]`
    LowerBound { domain_id: DomainId, lower_bound: i32 },
    /// `[x <= upper_bound]`
    UpperBound { domain_id: DomainId, upper_bound: i32 },
    /// `[x != not_equal_constant]`
    NotEqual { domain_id: DomainId, not_equal_constant: i32 },
    /// `[x == equality_constant]`
    Equal { domain_id: DomainId, equality_constant: i32 },
}

impl Predicate {
    /// The variable that the predicate speaks of.
    pub open spec fn domain(self) -> DomainId {
        match self {
            Predicate::LowerBound { domain_id, .. } => domain_id,
            Predicate::UpperBound { domain_id, .. } => domain_id,
            Predicate::NotEqual { domain_id, .. } => domain_id,
            Predicate::Equal { domain_id, .. } => domain_id,
        }
    }

    /// The constant on the right-hand side.
    pub open spec fn constant(self) -> int {
        match self {
            Predicate::LowerBound { lower_bound, .. } => lower_bound as int,
            Predicate::UpperBound { upper_bound, .. } => upper_bound as int,
            Predicate::NotEqual { not_equal_constant, .. } => not_equal_constant as int,
            Predicate::Equal { equality_constant, .. } => equality_constant as int,
        }
    }

    /// Whether the value `v` of the predicate's variable meets the predicate.
    pub open spec fn holds(self, v: int) -> bool {
        match self {
            Predicate::LowerBound { lower_bound, .. } => v >= lower_bound,
            Predicate::UpperBound { upper_bound, .. } => v <= upper_bound,
            Predicate::NotEqual { not_equal_constant, .. } => v != not_equal_constant,
            Predicate::Equal { equality_constant, .. } => v == equality_constant,
        }
    }

    /// What [`Predicate::negate`] returns.
    pub open spec fn negation(self) -> Predicate {
        match self {
            Predicate::LowerBound { domain_id, lower_bound } => Predicate::UpperBound {
                domain_id,
                upper_bound: if lower_bound > i32::MIN {
                    (lower_bound - 1) as i32
                } else {
                    i32::MIN
                },
            },
            Predicate::UpperBound { domain_id, upper_bound } => Predicate::LowerBound {
                domain_id,
                lower_bound: if upper_bound < i32::MAX {
                    (upper_bound + 1) as i32
                } else {
                    i32::MAX
                },
            },
            Predicate::NotEqual { domain_id, not_equal_constant } => Predicate::Equal {
                domain_id,
                equality_constant: not_equal_constant,
            },
            Predicate::Equal { domain_id, equality_constant } => Predicate::NotEqual {
                domain_id,
                not_equal_constant: equality_constant,
            },
        }
    }

    /// `[x == value]`
    pub open spec fn equal_to(domain_id: DomainId, value: i32) -> Predicate {
        Predicate::Equal { domain_id, equality_constant: value }
    }

    /// `[x != value]`
    pub open spec fn differs_from(domain_id: DomainId, value: i32) -> Predicate {
        Predicate::NotEqual { domain_id, not_equal_constant: value }
    }

    pub fn lower_bound(domain_id: DomainId, value: i32) -> (r: Predicate)
        ensures
            r == (Predicate::LowerBound { domain_id, lower_bound: value }),
    {
        Predicate::LowerBound { domain_id, lower_bound: value }
    }

    pub fn upper_bound(domain_id: DomainId, value: i32) -> (r: Predicate)
        ensures
            r == (Predicate::UpperBound { domain_id, upper_bound: value }),
    {
        Predicate::UpperBound { domain_id, upper_bound: value }
    }

    pub fn not_equal(domain_id: DomainId, value: i32) -> (r: Predicate)
        ensures
            r == (Predicate::NotEqual { domain_id, not_equal_constant: value }),
    {
        Predicate::NotEqual { domain_id, not_equal_constant: value }
    }

    pub fn equal(domain_id: DomainId, value: i32) -> (r: Predicate)
        ensures
            r == (Predicate::Equal { domain_id, equality_constant: value }),
    {
        Predicate::Equal { domain_id, equality_constant: value }
    }

    pub fn get_domain(&self) -> (r: DomainId)
        ensures
            r == self.domain(),
    {
        match *self {
            Predicate::LowerBound { domain_id, .. } => domain_id,
            Predicate::UpperBound { domain_id, .. } => domain_id,
            Predicate::NotEqual { domain_id, .. } => domain_id,
            Predicate::Equal { domain_id, .. } => domain_id,
        }
    }

    pub fn get_right_hand_side(&self) -> (r: i32)
        ensures
            r == self.constant(),
    {
        match *self {
            Predicate::LowerBound { lower_bound, .. } => lower_bound,
            Predicate::UpperBound { upper_bound, .. } => upper_bound,
            Predicate::NotEqual { not_equal_constant, .. } => not_equal_constant,
            Predicate::Equal { equality_constant, .. } => equality_constant,
        }
    }

    pub fn is_lower_bound_predicate(&self) -> (r: bool)
        ensures
            r == (*self is LowerBound),
    {
        matches!(*self, Predicate::LowerBound { .. })
    }

    pub fn is_upper_bound_predicate(&self) -> (r: bool)
        ensures
            r == (*self is UpperBound),
    {
        matches!(*self, Predicate::UpperBound { .. })
    }

    pub fn is_not_equal_predicate(&self) -> (r: bool)
        ensures
            r == (*self is NotEqual),
    {
        matches!(*self, Predicate::NotEqual { .. })
    }

    pub fn is_equality_predicate(&self) -> (r: bool)
        ensures
            r == (*self is Equal),
    {
        matches!(*self, Predicate::Equal { .. })
    }

    /// The complement of the predicate: on every legal value exactly one of
    /// the predicate and its negation holds.
    pub fn negate(&self) -> (r: Predicate)
        ensures
            r == self.negation(),
            r.domain() == self.domain(),
            forall|v: int| legal_value(v) ==> (#[trigger] r.holds(v) <==> !self.holds(v)),
    {
        match *self {
            Predicate::LowerBound { domain_id, lower_bound } => Predicate::UpperBound {
                domain_id,
                upper_bound: if lower_bound > i32::MIN {
                    lower_bound - 1
                } else {
                    i32::MIN
                },
            },
            Predicate::UpperBound { domain_id, upper_bound } => Predicate::LowerBound {
                domain_id,
                lower_bound: if upper_bound < i32::MAX {
                    upper_bound + 1
                } else {
                    i32::MAX
                },
            },
            Predicate::NotEqual { domain_id, not_equal_constant } => Predicate::Equal {
                domain_id,
                equality_constant: not_equal_constant,
            },
            Predicate::Equal { domain_id, equality_constant } => Predicate::NotEqual {
                domain_id,
                not_equal_constant: equality_constant,
            },
        }
    }

    /// Whether every value that meets `self` meets `other` too, for two
    /// predicates over one variable.
    pub open spec fn implies(self, other: Predicate) -> bool {
        self.domain() == other.domain() && forall|v: int|
            legal_value(v) && self.holds(v) ==> #[trigger] other.holds(v)
    }
}

/// Whether each predicate of `c` holds where each variable has the value
/// that `values` gives it.
pub open spec fn meets(values: spec_fn(DomainId) -> int, c: Seq<Predicate>) -> bool {
    forall|k: int| 0 <= k < c.len() ==> (#[trigger] c[k]).holds(values(c[k].domain()))
}

/// Negating twice gives a predicate that holds of the same legal values.
pub proof fn lemma_double_negation(p: Predicate, v: int)
    requires
        legal_value(v),
    ensures
        p.negation().negation().holds(v) <==> p.holds(v),
        p.negation().holds(v) <==> !p.holds(v),
{
}

} // verus!
