//! The domain store: the current domain of every integer variable, and the
//! trail of the changes that led to it.

use vstd::prelude::*;
use crate::conjunction::PropositionalConjunction;
use crate::predicate::{legal_value, DomainId, Predicate};
use crate::reason::{Reason, ReasonView};

verus! {

/// The error of a mutation that would leave a variable without a value.
#[derive(Clone, Copy, Debug, PartialEq, Eq, Structural)]
pub struct EmptyDomain;

/// One change of a domain, as the trail records it.
#[derive(Debug)]
pub struct TrailEntry {
    /// The tightest predicate that the change enforces.
    pub predicate: Predicate,
    /// The decision level at which the change was made.
    pub level: usize,
    /// The lower bound of the variable before the change.
    pub old_lower_bound: i32,
    /// The upper bound of the variable before the change.
    pub old_upper_bound: i32,
    /// Whether the change removed a value from the interior of the domain.
    pub added_hole: bool,
    /// The justification of the change.
    pub reason: Reason,
}

/// A domain as it is represented: two bounds and the removed values.
pub struct DomainRep {
    pub lower: i32,
    pub upper: i32,
    pub holes: Seq<i32>,
}

pub open spec fn rep_contains(r: DomainRep, v: int) -> bool {
    r.lower <= v <= r.upper && !r.holes.contains(v as i32)
}

pub open spec fn rep_wf(r: DomainRep) -> bool {
    &&& legal_value(r.lower as int)
    &&& legal_value(r.upper as int)
    &&& r.lower <= r.upper
    &&& rep_contains(r, r.lower as int)
    &&& rep_contains(r, r.upper as int)
}

/// Whether every value of the domain meets the predicate, read off the
/// representation.
pub open spec fn rep_satisfies(r: DomainRep, p: Predicate) -> bool {
    match p {
        Predicate::LowerBound { lower_bound, .. } => r.lower >= lower_bound,
        Predicate::UpperBound { upper_bound, .. } => r.upper <= upper_bound,
        Predicate::NotEqual { not_equal_constant, .. } => !rep_contains(r, not_equal_constant as int),
        Predicate::Equal { equality_constant, .. } => r.lower == equality_constant && r.upper
            == equality_constant,
    }
}

/// Whether no value of the domain meets the predicate.
pub open spec fn rep_falsifies(r: DomainRep, p: Predicate) -> bool {
    match p {
        Predicate::LowerBound { lower_bound, .. } => r.upper < lower_bound,
        Predicate::UpperBound { upper_bound, .. } => r.lower > upper_bound,
        Predicate::NotEqual { not_equal_constant, .. } => r.lower == not_equal_constant && r.upper
            == not_equal_constant,
        Predicate::Equal { equality_constant, .. } => !rep_contains(r, equality_constant as int),
    }
}

proof fn lemma_rep_satisfies(r: DomainRep, p: Predicate)
    requires
        rep_wf(r),
    ensures
        rep_satisfies(r, p) <==> (forall|v: int| rep_contains(r, v) ==> p.holds(v)),
        rep_falsifies(r, p) <==> (forall|v: int| rep_contains(r, v) ==> !p.holds(v)),
{
    if rep_satisfies(r, p) {
        assert forall|v: int| rep_contains(r, v) implies p.holds(v) by {}
    } else {
        match p {
            Predicate::LowerBound { .. } => {
                assert(rep_contains(r, r.lower as int) && !p.holds(r.lower as int));
            },
            Predicate::UpperBound { .. } => {
                assert(rep_contains(r, r.upper as int) && !p.holds(r.upper as int));
            },
            Predicate::NotEqual { not_equal_constant, .. } => {
                assert(rep_contains(r, not_equal_constant as int) && !p.holds(
                    not_equal_constant as int,
                ));
            },
            Predicate::Equal { .. } => {
                assert(rep_contains(r, r.lower as int) && rep_contains(r, r.upper as int));
                assert(!p.holds(r.lower as int) || !p.holds(r.upper as int));
            },
        }
    }
    if rep_falsifies(r, p) {
        assert forall|v: int| rep_contains(r, v) implies !p.holds(v) by {}
    } else {
        match p {
            Predicate::LowerBound { .. } => {
                assert(rep_contains(r, r.upper as int) && p.holds(r.upper as int));
            },
            Predicate::UpperBound { .. } => {
                assert(rep_contains(r, r.lower as int) && p.holds(r.lower as int));
            },
            Predicate::NotEqual { .. } => {
                assert(rep_contains(r, r.lower as int) && rep_contains(r, r.upper as int));
                assert(p.holds(r.lower as int) || p.holds(r.upper as int));
            },
            Predicate::Equal { equality_constant, .. } => {
                assert(rep_contains(r, equality_constant as int) && p.holds(
                    equality_constant as int,
                ));
            },
        }
    }
}

struct IntegerDomain {
    lower_bound: i32,
    upper_bound: i32,
    holes: Vec<i32>,
    initial_lower_bound: i32,
    initial_upper_bound: i32,
}

impl IntegerDomain {
    spec fn rep(&self) -> DomainRep {
        DomainRep { lower: self.lower_bound, upper: self.upper_bound, holes: self.holes@ }
    }

    spec fn initial_rep(&self) -> DomainRep {
        DomainRep {
            lower: self.initial_lower_bound,
            upper: self.initial_upper_bound,
            holes: Seq::empty(),
        }
    }
}

/// Whether `after` is `before` with the change that the entry records.
spec fn step_ok(before: Seq<DomainRep>, e: TrailEntry, after: Seq<DomainRep>) -> bool {
    let x = e.predicate.domain().index();
    &&& 0 <= x < before.len()
    &&& after.len() == before.len()
    &&& (forall|y: int| 0 <= y < before.len() && y != x ==> #[trigger] after[y] == before[y])
    &&& e.old_lower_bound == before[x].lower
    &&& e.old_upper_bound == before[x].upper
    &&& after[x].holes == if e.added_hole {
        before[x].holes.push(e.predicate.constant() as i32)
    } else {
        before[x].holes
    }
    &&& (forall|v: int| #[trigger]
        rep_contains(after[x], v) <==> rep_contains(before[x], v) && e.predicate.holds(v))
    &&& !rep_satisfies(before[x], e.predicate)
}

/// The domain that a change leaves behind.
spec fn changed_rep(
    before: DomainRep,
    predicate: Predicate,
    lower_bound: i32,
    upper_bound: i32,
    add_hole: bool,
) -> DomainRep {
    DomainRep {
        lower: lower_bound,
        upper: upper_bound,
        holes: if add_hole {
            before.holes.push(predicate.constant() as i32)
        } else {
            before.holes
        },
    }
}

/// Whether the new bounds, with or without a new hole, represent the values
/// of `before` that meet the predicate, and `before` has other values too.
spec fn change_ok(
    before: DomainRep,
    predicate: Predicate,
    lower_bound: i32,
    upper_bound: i32,
    add_hole: bool,
) -> bool {
    let after = changed_rep(before, predicate, lower_bound, upper_bound, add_hole);
    &&& rep_wf(after)
    &&& (forall|v: int| #[trigger]
        rep_contains(after, v) <==> rep_contains(before, v) && predicate.holds(v))
    &&& !rep_satisfies(before, predicate)
}

/// Whether the reason may justify a change of the domains `reps` at `level`.
spec fn reason_fits(reps: Seq<DomainRep>, level: int, reason: Reason) -> bool {
    match reason {
        Reason::Decision => true,
        Reason::RootLevel => level == 0,
        Reason::Eager(c) => forall|k: int|
            0 <= k < c@.len() ==> {
                &&& 0 <= (#[trigger] c@[k]).domain().index() < reps.len()
                &&& rep_satisfies(reps[c@[k].domain().index()], c@[k])
            },
        Reason::Lazy(_, _) => true,
    }
}

/// The domains of the integer variables together with the trail.
pub struct Assignments {
    domains: Vec<IntegerDomain>,
    trail: Vec<TrailEntry>,
    /// For each open decision level, the length of the trail when it opened.
    level_starts: Vec<usize>,
    /// For each trail entry, the domains just before it was made.
    history: Ghost<Seq<Seq<DomainRep>>>,
}

impl Assignments {
    spec fn reps(&self) -> Seq<DomainRep> {
        Seq::new(self.domains.len() as nat, |i: int| self.domains[i].rep())
    }

    spec fn snapshot(&self, n: int) -> Seq<DomainRep> {
        if 0 <= n < self.history@.len() {
            self.history@[n]
        } else {
            self.reps()
        }
    }

    /// The number of variables.
    pub closed spec fn num_domains(&self) -> nat {
        self.domains.len() as nat
    }

    /// The number of entries on the trail.
    pub closed spec fn trail_len(&self) -> nat {
        self.trail.len() as nat
    }

    /// The current decision level; 0 is the root.
    pub closed spec fn level(&self) -> nat {
        self.level_starts.len() as nat
    }

    /// The trail entry at position `i`.
    pub closed spec fn entry(&self, i: int) -> TrailEntry {
        self.trail[i]
    }

    /// The length that the trail had when decision level `k + 1` was opened.
    pub closed spec fn level_start(&self, k: int) -> int {
        self.level_starts[k] as int
    }

    /// Whether `x` is a variable of this store.
    pub open spec fn has(&self, x: DomainId) -> bool {
        x.index() < self.num_domains()
    }

    /// Whether the value `v` was in the domain of `x` when the trail held its
    /// first `n` entries.
    pub closed spec fn contains_at(&self, n: int, x: DomainId, v: int) -> bool {
        x.index() < self.domains.len() && rep_contains(self.snapshot(n)[x.index()], v)
    }

    /// The lower bound of `x` when the trail held its first `n` entries.
    pub closed spec fn lower_at(&self, n: int, x: DomainId) -> int {
        self.snapshot(n)[x.index()].lower as int
    }

    /// The upper bound of `x` when the trail held its first `n` entries.
    pub closed spec fn upper_at(&self, n: int, x: DomainId) -> int {
        self.snapshot(n)[x.index()].upper as int
    }

    /// The lower bound with which `x` was created.
    pub closed spec fn initial_lower(&self, x: DomainId) -> int {
        self.domains[x.index()].initial_lower_bound as int
    }

    /// The upper bound with which `x` was created.
    pub closed spec fn initial_upper(&self, x: DomainId) -> int {
        self.domains[x.index()].initial_upper_bound as int
    }

    /// Whether the value `v` is in the current domain of `x`.
    pub open spec fn contains(&self, x: DomainId, v: int) -> bool {
        self.contains_at(self.trail_len() as int, x, v)
    }

    /// The current lower bound of `x`.
    pub open spec fn lower(&self, x: DomainId) -> int {
        self.lower_at(self.trail_len() as int, x)
    }

    /// The current upper bound of `x`.
    pub open spec fn upper(&self, x: DomainId) -> int {
        self.upper_at(self.trail_len() as int, x)
    }

    /// Whether `x` has one value left.
    pub open spec fn is_fixed(&self, x: DomainId) -> bool {
        self.lower(x) == self.upper(x)
    }

    /// Whether every value that `p`'s variable had after the first `n` trail
    /// entries meets `p`.
    pub open spec fn satisfied_at(&self, n: int, p: Predicate) -> bool {
        self.has(p.domain()) && forall|v: int| #[trigger]
            self.contains_at(n, p.domain(), v) ==> p.holds(v)
    }

    /// Whether every value in the current domain of `p`'s variable meets `p`.
    pub open spec fn satisfies(&self, p: Predicate) -> bool {
        self.satisfied_at(self.trail_len() as int, p)
    }

    /// Whether no value in the current domain of `p`'s variable meets `p`.
    pub open spec fn falsifies(&self, p: Predicate) -> bool {
        self.has(p.domain()) && forall|v: int| #[trigger]
            self.contains(p.domain(), v) ==> !p.holds(v)
    }

    /// Whether the store satisfies every predicate of `c`.
    pub open spec fn entails(&self, c: Seq<Predicate>) -> bool {
        forall|k: int| 0 <= k < c.len() ==> self.satisfies(#[trigger] c[k])
    }

    /// Whether the first `n` trail entries satisfy every predicate of `c`.
    pub open spec fn entailed_at(&self, n: int, c: Seq<Predicate>) -> bool {
        forall|k: int| 0 <= k < c.len() ==> self.satisfied_at(n, #[trigger] c[k])
    }

    /// Whether `values` gives each variable of the store a value of its
    /// current domain.
    pub open spec fn allows(&self, values: spec_fn(DomainId) -> int) -> bool {
        forall|x: DomainId| self.has(x) ==> #[trigger] self.contains(x, values(x))
    }

    /// The length that the trail had when the first decision level was
    /// opened; at the root, the length of the trail.
    pub open spec fn root_len(&self) -> int {
        if self.level() > 0 {
            self.level_start(0)
        } else {
            self.trail_len() as int
        }
    }

    /// Whether `values` gives each variable of the store a value that its
    /// domain had at the root.
    pub open spec fn allows_at_root(&self, values: spec_fn(DomainId) -> int) -> bool {
        forall|x: DomainId|
            self.has(x) ==> #[trigger] self.contains_at(self.root_len(), x, values(x))
    }

    /// Whether `reason` may be given for a change of this store: a
    /// conjunction must be entailed, and a root-level reason needs the root.
    pub open spec fn admits(&self, reason: ReasonView) -> bool {
        match reason {
            ReasonView::Decision => true,
            ReasonView::RootLevel => self.level() == 0,
            ReasonView::Eager(c) => self.entails(c),
            ReasonView::Lazy(_, _) => true,
        }
    }

    spec fn levels_wf(&self) -> bool {
        &&& (forall|i: int, j: int|
            0 <= i <= j < self.trail.len() ==> (#[trigger] self.trail[i]).level <= (
            #[trigger] self.trail[j]).level)
        &&& (forall|i: int|
            0 <= i < self.trail.len() ==> (#[trigger] self.trail[i]).level
                <= self.level_starts.len())
        &&& (forall|k: int|
            0 <= k < self.level_starts.len() ==> #[trigger] self.level_starts[k]
                <= self.trail.len())
        &&& (forall|i: int, k: int|
            0 <= i < self.trail.len() && 0 <= k < self.level_starts.len() ==> ((
            #[trigger] self.trail[i]).level <= k <==> i < #[trigger] self.level_starts[k]))
    }

    spec fn store_wf(&self) -> bool {
        &&& self.history@.len() == self.trail.len()
        &&& self.domains.len() <= u32::MAX
        &&& (forall|n: int|
            0 <= n <= self.trail.len() ==> (#[trigger] self.snapshot(n)).len()
                == self.domains.len())
        &&& (forall|n: int, x: int|
            0 <= n <= self.trail.len() && 0 <= x < self.domains.len() ==> rep_wf(
                #[trigger] self.snapshot(n)[x],
            ))
        &&& (forall|x: int|
            0 <= x < self.domains.len() ==> self.snapshot(0)[x]
                == (#[trigger] self.domains[x]).initial_rep())
        &&& (forall|i: int|
            0 <= i < self.trail.len() ==> step_ok(
                self.snapshot(i),
                #[trigger] self.trail[i],
                self.snapshot(i + 1),
            ))
        &&& (forall|i: int|
            0 <= i < self.trail.len() ==> reason_fits(
                self.snapshot(i),
                (#[trigger] self.trail[i]).level as int,
                self.trail[i].reason,
            ))
    }

    /// The invariant of the store. It says that each variable has a value
    /// left, that its bounds are values of its domain, that each trail entry
    /// records the change between the domains before and after it, that the
    /// levels of the entries never decrease along the trail, and that the
    /// predicates of each stored reason held before the entry was made.
    pub closed spec fn wf(&self) -> bool {
        self.store_wf() && self.levels_wf()
    }

    /// Whether `self` continues `old`: the same variables and levels, the
    /// trail of `old` as a prefix, and the past of `old` unchanged.
    pub open spec fn extends(&self, old: &Assignments) -> bool {
        &&& self.num_domains() == old.num_domains()
        &&& self.level() == old.level()
        &&& old.trail_len() <= self.trail_len()
        &&& (forall|k: int|
            0 <= k < old.level() ==> #[trigger] self.level_start(k) == old.level_start(k))
        &&& (forall|i: int| 0 <= i < old.trail_len() ==> #[trigger] self.entry(i) == old.entry(i))
        &&& (forall|n: int, x: DomainId, v: int|
            0 <= n <= old.trail_len() ==> (#[trigger] self.contains_at(n, x, v)
                <==> old.contains_at(n, x, v)))
        &&& (forall|n: int, x: DomainId|
            0 <= n <= old.trail_len() ==> #[trigger] self.lower_at(n, x) == old.lower_at(n, x))
        &&& (forall|n: int, x: DomainId|
            0 <= n <= old.trail_len() ==> #[trigger] self.upper_at(n, x) == old.upper_at(n, x))
        &&& (forall|x: DomainId|
            old.has(x) ==> #[trigger] self.initial_lower(x) == old.initial_lower(x))
        &&& (forall|x: DomainId|
            old.has(x) ==> #[trigger] self.initial_upper(x) == old.initial_upper(x))
    }

    /// What a bound change records on the trail: the bound that was reached.
    pub open spec fn recorded(p: Predicate, lower: int, upper: int) -> Predicate {
        match p {
            Predicate::LowerBound { domain_id, .. } => Predicate::LowerBound {
                domain_id,
                lower_bound: lower as i32,
            },
            Predicate::UpperBound { domain_id, .. } => Predicate::UpperBound {
                domain_id,
                upper_bound: upper as i32,
            },
            _ => p,
        }
    }

    /// Whether `self` is `old` after `p` was posted with `reason`: the
    /// domain of `p`'s variable keeps the values that meet `p`, nothing else
    /// changes, and the trail grows by one entry unless `old` satisfied `p`.
    pub open spec fn posted(&self, old: &Assignments, p: Predicate, reason: ReasonView) -> bool {
        let n = old.trail_len() as int;
        &&& self.extends(old)
        &&& (forall|y: DomainId, v: int| #[trigger]
            self.contains(y, v) <==> old.contains(y, v) && (y == p.domain() ==> p.holds(v)))
        &&& if old.satisfies(p) {
            self.trail_len() == n
        } else {
            &&& self.trail_len() == n + 1
            &&& self.entry(n).predicate == Self::recorded(
                p,
                self.lower(p.domain()),
                self.upper(p.domain()),
            )
            &&& self.entry(n).level == old.level()
            &&& self.entry(n).reason@ == reason
        }
    }

    // ------------------------------------------------------------------
    // What the invariant gives.
    // ------------------------------------------------------------------
    /// The bounds of a variable are the least and the greatest value of its
    /// domain, at every point of the trail.
    pub proof fn lemma_bounds(&self, n: int, x: DomainId)
        requires
            self.wf(),
            0 <= n <= self.trail_len(),
            self.has(x),
        ensures
            legal_value(self.lower_at(n, x)),
            legal_value(self.upper_at(n, x)),
            self.lower_at(n, x) <= self.upper_at(n, x),
            self.contains_at(n, x, self.lower_at(n, x)),
            self.contains_at(n, x, self.upper_at(n, x)),
            forall|v: int| #[trigger]
                self.contains_at(n, x, v) ==> self.lower_at(n, x) <= v <= self.upper_at(n, x),
    {
        assert(rep_wf(self.snapshot(n)[x.index()]));
    }

    /// Each trail entry speaks of a variable of the store, records its bounds
    /// from before the change, and takes from its domain exactly the values
    /// that do not meet the entry's predicate, of which there is at least one.
    pub proof fn lemma_step(&self, i: int)
        requires
            self.wf(),
            0 <= i < self.trail_len(),
        ensures
            self.has(self.entry(i).predicate.domain()),
            self.entry(i).old_lower_bound == self.lower_at(i, self.entry(i).predicate.domain()),
            self.entry(i).old_upper_bound == self.upper_at(i, self.entry(i).predicate.domain()),
            !self.satisfied_at(i, self.entry(i).predicate),
            self.satisfied_at(i + 1, self.entry(i).predicate),
            forall|x: DomainId, v: int|
                (#[trigger] self.contains_at(i + 1, x, v)) <==> (self.contains_at(i, x, v) && (x
                    == self.entry(i).predicate.domain() ==> self.entry(i).predicate.holds(v))),
    {
        let e = self.trail[i];
        let d = e.predicate.domain();
        assert(step_ok(self.snapshot(i), e, self.snapshot(i + 1)));
        assert(rep_wf(self.snapshot(i)[d.index()]));
        lemma_rep_satisfies(self.snapshot(i)[d.index()], e.predicate);
        if self.satisfied_at(i, e.predicate) {
            assert forall|v: int| rep_contains(self.snapshot(i)[d.index()], v) implies e.predicate.holds(
                v,
            ) by {
                assert(self.contains_at(i, d, v));
            }
        }
        assert forall|x: DomainId, v: int|
            (#[trigger] self.contains_at(i + 1, x, v)) <==> (self.contains_at(i, x, v) && (x == d
                ==> e.predicate.holds(v))) by {
            if x.index() < self.domains.len() {
                if x.index() != d.index() {
                    assert(self.snapshot(i + 1)[x.index()] == self.snapshot(i)[x.index()]);
                } else {
                    assert(x == d);
                }
            }
        }
    }

    /// Before the first trail entry the domain of a variable is the interval
    /// with which it was created.
    pub proof fn lemma_initial(&self, x: DomainId)
        requires
            self.wf(),
            self.has(x),
        ensures
            self.lower_at(0, x) == self.initial_lower(x),
            self.upper_at(0, x) == self.initial_upper(x),
            forall|v: int| #[trigger]
                self.contains_at(0, x, v) <==> self.initial_lower(x) <= v <= self.initial_upper(
                    x,
                ),
    {
        assert(self.snapshot(0)[x.index()] == self.domains[x.index()].initial_rep());
    }

    /// The levels of the trail entries never decrease, and none exceeds the
    /// current decision level.
    pub proof fn lemma_levels(&self, i: int, j: int)
        requires
            self.wf(),
            0 <= i <= j < self.trail_len(),
        ensures
            self.entry(i).level <= self.entry(j).level <= self.level(),
    {
    }

    proof fn lemma_same_root(&self, old: &Assignments, values: spec_fn(DomainId) -> int)
        requires
            self.num_domains() == old.num_domains(),
            self.root_len() == old.root_len(),
            forall|x: DomainId, v: int| #[trigger]
                self.contains_at(self.root_len(), x, v) <==> old.contains_at(
                    self.root_len(),
                    x,
                    v,
                ),
        ensures
            self.allows_at_root(values) == old.allows_at_root(values),
    {
        if self.allows_at_root(values) {
            assert forall|x: DomainId| old.has(x) implies #[trigger] old.contains_at(
                old.root_len(),
                x,
                values(x),
            ) by {
                assert(self.contains_at(self.root_len(), x, values(x)));
            }
        }
        if old.allows_at_root(values) {
            assert forall|x: DomainId| self.has(x) implies #[trigger] self.contains_at(
                self.root_len(),
                x,
                values(x),
            ) by {
                assert(old.contains_at(old.root_len(), x, values(x)));
            }
        }
    }

    /// Above the root, a store that continues another has the same root.
    pub proof fn lemma_root_extends(&self, old: &Assignments, values: spec_fn(DomainId) -> int)
        requires
            self.wf(),
            old.wf(),
            self.extends(old),
            old.level() > 0,
        ensures
            self.root_len() == old.root_len(),
            self.allows_at_root(values) == old.allows_at_root(values),
    {
        assert(self.level_start(0) == old.level_start(0));
        assert(0 <= old.level_start(0) <= old.trail_len());
        self.lemma_same_root(old, values);
    }

    /// A store with a new decision level has the root of the store without.
    pub proof fn lemma_root_opened(&self, old: &Assignments, values: spec_fn(DomainId) -> int)
        requires
            self.wf(),
            old.wf(),
            self.opened(old),
        ensures
            self.root_len() == old.root_len(),
            self.allows_at_root(values) == old.allows_at_root(values),
    {
        if old.level() > 0 {
            assert(self.level_start(0) == old.level_start(0));
        }
        assert(0 <= old.root_len() <= old.trail_len());
        self.lemma_same_root(old, values);
    }

    /// A store that was taken back to a level has the root that it had.
    pub proof fn lemma_root_restored(
        &self,
        old: &Assignments,
        level: int,
        values: spec_fn(DomainId) -> int,
    )
        requires
            self.wf(),
            old.wf(),
            self.restored(old, level),
            0 <= level <= old.level(),
        ensures
            self.root_len() == old.root_len(),
            self.allows_at_root(values) == old.allows_at_root(values),
    {
        if level > 0 {
            assert(self.level_start(0) == old.level_start(0));
        }
        assert(0 <= self.root_len() <= self.trail_len());
        self.lemma_same_root(old, values);
    }

    /// At the root, the root of the store is the store.
    pub proof fn lemma_root_is_store(&self, values: spec_fn(DomainId) -> int)
        requires
            self.level() == 0,
        ensures
            self.allows_at_root(values) == self.allows(values),
    {
        assert(self.root_len() == self.trail_len());
        if self.allows_at_root(values) {
            assert forall|x: DomainId| self.has(x) implies #[trigger] self.contains(
                x,
                values(x),
            ) by {
                assert(self.contains_at(self.root_len(), x, values(x)));
            }
        }
        if self.allows(values) {
            assert forall|x: DomainId| self.has(x) implies #[trigger] self.contains_at(
                self.root_len(),
                x,
                values(x),
            ) by {
                assert(self.contains(x, values(x)));
            }
        }
    }

    /// A store in which reasons were expanded has the root that it had.
    pub proof fn lemma_root_expands(&self, old: &Assignments, values: spec_fn(DomainId) -> int)
        requires
            self.wf(),
            old.wf(),
            self.expands(old),
        ensures
            self.root_len() == old.root_len(),
            self.allows_at_root(values) == old.allows_at_root(values),
    {
        if old.level() > 0 {
            assert(self.level_start(0) == old.level_start(0));
        }
        self.lemma_same_root(old, values);
    }

    /// Values that the store allows meet each conjunction that the store
    /// entails.
    pub proof fn lemma_allowed_meets(&self, values: spec_fn(DomainId) -> int, c: Seq<Predicate>)
        requires
            self.allows(values),
            self.entails(c),
        ensures
            crate::predicate::meets(values, c),
    {
        assert forall|k: int| 0 <= k < c.len() implies (#[trigger] c[k]).holds(
            values(c[k].domain()),
        ) by {
            assert(self.satisfies(c[k]));
            assert(self.contains(c[k].domain(), values(c[k].domain())));
        }
    }

    /// The entries made at levels up to `k` are those before the start of
    /// level `k + 1`.
    pub proof fn lemma_level_start(&self, i: int, k: int)
        requires
            self.wf(),
            0 <= i < self.trail_len(),
            0 <= k < self.level(),
        ensures
            self.entry(i).level <= k <==> i < self.level_start(k),
            0 <= self.level_start(k) <= self.trail_len(),
    {
    }

    /// Every predicate of the conjunction stored as the reason of a trail
    /// entry was satisfied by the trail before that entry, and an entry
    /// without a justification was made at the root.
    pub proof fn lemma_reason_valid(&self, i: int)
        requires
            self.wf(),
            0 <= i < self.trail_len(),
        ensures
            self.entry(i).reason is RootLevel ==> self.entry(i).level == 0,
            self.entry(i).reason@ matches ReasonView::Eager(c) ==> self.entailed_at(i, c),
    {
        let e = self.trail[i];
        assert(reason_fits(self.snapshot(i), e.level as int, e.reason));
        if let Reason::Eager(c) = e.reason {
            assert forall|k: int| 0 <= k < c@.len() implies self.satisfied_at(
                i,
                #[trigger] c@[k],
            ) by {
                let p = c@[k];
                assert(rep_wf(self.snapshot(i)[p.domain().index()]));
                lemma_rep_satisfies(self.snapshot(i)[p.domain().index()], p);
            }
        }
    }

    /// Domains only shrink along the trail.
    pub proof fn lemma_monotone(&self, i: int, j: int, x: DomainId, v: int)
        requires
            self.wf(),
            0 <= i <= j <= self.trail_len(),
            self.contains_at(j, x, v),
        ensures
            self.contains_at(i, x, v),
        decreases j - i,
    {
        if i < j {
            self.lemma_step(j - 1);
            self.lemma_monotone(i, j - 1, x, v);
        }
    }

    /// A predicate that the trail satisfied at some point stays satisfied.
    pub proof fn lemma_satisfied_stays(&self, i: int, j: int, p: Predicate)
        requires
            self.wf(),
            0 <= i <= j <= self.trail_len(),
            self.satisfied_at(i, p),
        ensures
            self.satisfied_at(j, p),
    {
        assert forall|v: int| #[trigger] self.contains_at(j, p.domain(), v) implies p.holds(v) by {
            self.lemma_monotone(i, j, p.domain(), v);
        }
    }

    // ------------------------------------------------------------------
    // Reading the store.
    // ------------------------------------------------------------------
    /// A store without variables, at the root.
    pub fn new() -> (r: Assignments)
        ensures
            r.wf(),
            r.num_domains() == 0,
            r.trail_len() == 0,
            r.level() == 0,
    {
        Assignments {
            domains: Vec::new(),
            trail: Vec::new(),
            level_starts: Vec::new(),
            history: Ghost(Seq::empty()),
        }
    }

    pub fn get_num_domains(&self) -> (r: usize)
        ensures
            r == self.num_domains(),
    {
        self.domains.len()
    }

    pub fn get_decision_level(&self) -> (r: usize)
        ensures
            r == self.level(),
    {
        self.level_starts.len()
    }

    pub fn num_trail_entries(&self) -> (r: usize)
        ensures
            r == self.trail_len(),
    {
        self.trail.len()
    }

    pub fn get_trail_entry(&self, index: usize) -> (r: &TrailEntry)
        requires
            index < self.trail_len(),
        ensures
            *r == self.entry(index as int),
    {
        &self.trail[index]
    }

    pub fn get_lower_bound(&self, x: DomainId) -> (r: i32)
        requires
            self.wf(),
            self.has(x),
        ensures
            r == self.lower(x),
    {
        self.domains[x.id as usize].lower_bound
    }

    pub fn get_upper_bound(&self, x: DomainId) -> (r: i32)
        requires
            self.wf(),
            self.has(x),
        ensures
            r == self.upper(x),
    {
        self.domains[x.id as usize].upper_bound
    }

    pub fn get_initial_lower_bound(&self, x: DomainId) -> (r: i32)
        requires
            self.has(x),
        ensures
            r == self.initial_lower(x),
    {
        self.domains[x.id as usize].initial_lower_bound
    }

    pub fn get_initial_upper_bound(&self, x: DomainId) -> (r: i32)
        requires
            self.has(x),
        ensures
            r == self.initial_upper(x),
    {
        self.domains[x.id as usize].initial_upper_bound
    }

    fn is_removed(&self, i: usize, v: i32) -> (r: bool)
        requires
            i < self.domains.len(),
        ensures
            r == self.domains[i as int].holes@.contains(v),
    {
        let holes = &self.domains[i].holes;
        let mut k: usize = 0;
        while k < holes.len()
            invariant
                i < self.domains.len(),
                holes@ == self.domains[i as int].holes@,
                k <= holes.len(),
                forall|j: int| 0 <= j < k ==> holes@[j] != v,
            decreases holes.len() - k,
        {
            if holes[k] == v {
                assert(self.domains[i as int].holes@[k as int] == v);
                return true;
            }
            k += 1;
        }
        false
    }

    pub fn is_value_in_domain(&self, x: DomainId, value: i32) -> (r: bool)
        requires
            self.wf(),
            self.has(x),
        ensures
            r == self.contains(x, value as int),
    {
        let i = x.id as usize;
        self.domains[i].lower_bound <= value && value <= self.domains[i].upper_bound
            && !self.is_removed(i, value)
    }

    pub fn is_domain_assigned(&self, x: DomainId) -> (r: bool)
        requires
            self.wf(),
            self.has(x),
        ensures
            r == self.is_fixed(x),
    {
        let i = x.id as usize;
        self.domains[i].lower_bound == self.domains[i].upper_bound
    }

    /// The value of a variable that has one value left.
    pub fn get_assigned_value(&self, x: DomainId) -> (r: i32)
        requires
            self.wf(),
            self.has(x),
            self.is_fixed(x),
        ensures
            r == self.lower(x),
            forall|v: int| #[trigger] self.contains(x, v) <==> v == r,
    {
        proof {
            self.lemma_bounds(self.trail_len() as int, x);
        }
        self.domains[x.id as usize].lower_bound
    }

    pub fn is_predicate_satisfied(&self, predicate: Predicate) -> (r: bool)
        requires
            self.wf(),
            self.has(predicate.domain()),
        ensures
            r == self.satisfies(predicate),
    {
        let i = predicate.get_domain().id as usize;
        let lb = self.domains[i].lower_bound;
        let ub = self.domains[i].upper_bound;
        proof {
            let r = self.snapshot(self.trail.len() as int)[i as int];
            assert(rep_wf(r));
            lemma_rep_satisfies(r, predicate);
            if self.satisfies(predicate) {
                assert forall|v: int| rep_contains(r, v) implies predicate.holds(v) by {
                    assert(self.contains(predicate.domain(), v));
                }
            }
        }
        match predicate {
            Predicate::LowerBound { lower_bound, .. } => lb >= lower_bound,
            Predicate::UpperBound { upper_bound, .. } => ub <= upper_bound,
            Predicate::NotEqual { not_equal_constant, .. } => not_equal_constant < lb
                || not_equal_constant > ub || self.is_removed(i, not_equal_constant),
            Predicate::Equal { equality_constant, .. } => lb == equality_constant && ub
                == equality_constant,
        }
    }

    pub fn is_predicate_falsified(&self, predicate: Predicate) -> (r: bool)
        requires
            self.wf(),
            self.has(predicate.domain()),
        ensures
            r == self.falsifies(predicate),
    {
        let i = predicate.get_domain().id as usize;
        let lb = self.domains[i].lower_bound;
        let ub = self.domains[i].upper_bound;
        proof {
            let r = self.snapshot(self.trail.len() as int)[i as int];
            assert(rep_wf(r));
            lemma_rep_satisfies(r, predicate);
            if self.falsifies(predicate) {
                assert forall|v: int| rep_contains(r, v) implies !predicate.holds(v) by {
                    assert(self.contains(predicate.domain(), v));
                }
            }
        }
        match predicate {
            Predicate::LowerBound { lower_bound, .. } => ub < lower_bound,
            Predicate::UpperBound { upper_bound, .. } => lb > upper_bound,
            Predicate::NotEqual { not_equal_constant, .. } => lb == not_equal_constant && ub
                == not_equal_constant,
            Predicate::Equal { equality_constant, .. } => equality_constant < lb
                || equality_constant > ub || self.is_removed(i, equality_constant),
        }
    }

    /// `Some(true)` where the store satisfies the predicate, `Some(false)`
    /// where it falsifies it, `None` where it is undecided.
    pub fn evaluate_predicate(&self, predicate: Predicate) -> (r: Option<bool>)
        requires
            self.wf(),
            self.has(predicate.domain()),
        ensures
            r == Some(true) <==> self.satisfies(predicate),
            r == Some(false) <==> self.falsifies(predicate),
    {
        proof {
            self.lemma_bounds(self.trail_len() as int, predicate.domain());
            assert(self.contains(predicate.domain(), self.lower(predicate.domain())));
        }
        if self.is_predicate_satisfied(predicate) {
            Some(true)
        } else if self.is_predicate_falsified(predicate) {
            Some(false)
        } else {
            None
        }
    }

    // ------------------------------------------------------------------
    // Changing the store.
    // ------------------------------------------------------------------
    /// Creates a variable with the domain `lower_bound..=upper_bound`.
    pub fn grow(&mut self, lower_bound: i32, upper_bound: i32) -> (id: DomainId)
        requires
            old(self).wf(),
            legal_value(lower_bound as int),
            legal_value(upper_bound as int),
            lower_bound <= upper_bound,
            old(self).num_domains() < u32::MAX,
        ensures
            final(self).wf(),
            id.index() == old(self).num_domains(),
            final(self).num_domains() == old(self).num_domains() + 1,
            final(self).trail_len() == old(self).trail_len(),
            final(self).level() == old(self).level(),
            forall|k: int|
                0 <= k < old(self).level()
                    ==> #[trigger] final(self).level_start(k) == old(self).level_start(k),
            forall|i: int|
                0 <= i < old(self).trail_len() ==> #[trigger] final(self).entry(i) == old(self).entry(i),
            forall|n: int, x: DomainId, v: int|
                0 <= n <= old(self).trail_len() && x != id ==> (#[trigger] final(self).contains_at(
                    n,
                    x,
                    v,
                ) <==> old(self).contains_at(n, x, v)),
            forall|n: int, x: DomainId|
                0 <= n <= old(self).trail_len() && old(self).has(x)
                    ==> #[trigger] final(self).lower_at(n, x) == old(self).lower_at(n, x),
            forall|n: int, x: DomainId|
                0 <= n <= old(self).trail_len() && old(self).has(x)
                    ==> #[trigger] final(self).upper_at(n, x) == old(self).upper_at(n, x),
            forall|x: DomainId|
                old(self).has(x) ==> #[trigger] final(self).initial_lower(x) == old(self).initial_lower(x),
            forall|x: DomainId|
                old(self).has(x) ==> #[trigger] final(self).initial_upper(x) == old(self).initial_upper(x),
            final(self).initial_lower(id) == lower_bound,
            final(self).initial_upper(id) == upper_bound,
            forall|n: int|
                0 <= n <= old(self).trail_len() ==> #[trigger] final(self).lower_at(n, id)
                    == lower_bound && final(self).upper_at(n, id) == upper_bound,
            forall|n: int, v: int|
                0 <= n <= old(self).trail_len() ==> (#[trigger] final(self).contains_at(n, id, v)
                    <==> lower_bound <= v <= upper_bound),
    {
        let id = DomainId { id: self.domains.len() as u32 };
        let domain = IntegerDomain {
            lower_bound,
            upper_bound,
            holes: Vec::new(),
            initial_lower_bound: lower_bound,
            initial_upper_bound: upper_bound,
        };
        let ghost fresh = domain.rep();
        let ghost before = *self;
        proof {
            self.history@ = self.history@.map_values(|s: Seq<DomainRep>| s.push(fresh));
        }
        self.domains.push(domain);
        proof {
            let m = before.domains.len() as int;
            assert(self.reps() =~= before.reps().push(fresh));
            assert forall|n: int| 0 <= n <= self.trail.len() implies #[trigger] self.snapshot(n)
                == before.snapshot(n).push(fresh) by {}
            assert forall|n: int, x: int|
                0 <= n <= self.trail.len() && 0 <= x < self.domains.len() implies rep_wf(
                #[trigger] self.snapshot(n)[x],
            ) by {
                if x < m {
                    assert(rep_wf(before.snapshot(n)[x]));
                }
            }
            assert forall|x: int| 0 <= x < self.domains.len() implies self.snapshot(0)[x] == (
            #[trigger] self.domains[x]).initial_rep() by {
                if x < m {
                    assert(before.snapshot(0)[x] == before.domains[x].initial_rep());
                }
            }
            assert forall|i: int| 0 <= i < self.trail.len() implies step_ok(
                self.snapshot(i),
                #[trigger] self.trail[i],
                self.snapshot(i + 1),
            ) by {
                assert(step_ok(before.snapshot(i), before.trail[i], before.snapshot(i + 1)));
                let a = before.snapshot(i);
                let b = before.snapshot(i + 1);
                let x = self.trail[i].predicate.domain().index();
                assert forall|y: int| 0 <= y < a.len() + 1 && y != x implies #[trigger] b.push(
                    fresh,
                )[y] == a.push(fresh)[y] by {
                    if y < a.len() {
                        assert(b[y] == a[y]);
                    }
                }
            }
            assert forall|i: int| 0 <= i < self.trail.len() implies reason_fits(
                self.snapshot(i),
                (#[trigger] self.trail[i]).level as int,
                self.trail[i].reason,
            ) by {
                assert(reason_fits(
                    before.snapshot(i),
                    before.trail[i].level as int,
                    before.trail[i].reason,
                ));
            }
            assert(self.store_wf());
            assert(self.levels_wf());
        }
        id
    }

    /// Opens a new decision level.
    pub fn increase_decision_level(&mut self)
        requires
            old(self).wf(),
        ensures
            final(self).wf(),
            final(self).opened(old(self)),
    {
        let ghost before = *self;
        self.level_starts.push(self.trail.len());
        proof {
            assert forall|n: int| 0 <= n <= self.trail.len() implies #[trigger] self.snapshot(n)
                == before.snapshot(n) by {
                assert(self.reps() =~= before.reps());
            }
            assert(self.store_wf());
            assert(self.levels_wf());
        }
    }

    /// Whether `self` is `old` with one more decision level, opened at the
    /// end of the trail, and nothing else changed.
    pub open spec fn opened(&self, old: &Assignments) -> bool {
        &&& self.level() == old.level() + 1
        &&& self.level_start(old.level() as int) == old.trail_len()
        &&& self.num_domains() == old.num_domains()
        &&& self.trail_len() == old.trail_len()
        &&& (forall|k: int|
            0 <= k < old.level() ==> #[trigger] self.level_start(k) == old.level_start(k))
        &&& (forall|i: int| 0 <= i < old.trail_len() ==> #[trigger] self.entry(i) == old.entry(i))
        &&& (forall|n: int, x: DomainId, v: int|
            0 <= n <= old.trail_len() ==> (#[trigger] self.contains_at(n, x, v)
                <==> old.contains_at(n, x, v)))
        &&& (forall|n: int, x: DomainId|
            0 <= n <= old.trail_len() ==> #[trigger] self.lower_at(n, x) == old.lower_at(n, x))
        &&& (forall|n: int, x: DomainId|
            0 <= n <= old.trail_len() ==> #[trigger] self.upper_at(n, x) == old.upper_at(n, x))
        &&& (forall|x: DomainId|
            old.has(x) ==> #[trigger] self.initial_lower(x) == old.initial_lower(x))
        &&& (forall|x: DomainId|
            old.has(x) ==> #[trigger] self.initial_upper(x) == old.initial_upper(x))
    }

    /// The least value of the domain that is not below `from`.
    fn next_value_up(&self, i: usize, from: i32) -> (r: i32)
        requires
            i < self.domains.len(),
            rep_wf(self.domains[i as int].rep()),
            from <= self.domains[i as int].upper_bound,
        ensures
            from <= r <= self.domains[i as int].upper_bound,
            !self.domains[i as int].holes@.contains(r),
            forall|u: i32| from <= u < r ==> #[trigger] self.domains[i as int].holes@.contains(u),
    {
        let ub = self.domains[i].upper_bound;
        let mut candidate = from;
        while self.is_removed(i, candidate)
            invariant
                i < self.domains.len(),
                rep_wf(self.domains[i as int].rep()),
                ub == self.domains[i as int].upper_bound,
                from <= candidate <= ub,
                forall|u: i32|
                    from <= u < candidate ==> #[trigger] self.domains[i as int].holes@.contains(u),
            decreases ub - candidate,
        {
            proof {
                assert(rep_contains(self.domains[i as int].rep(), ub as int));
            }
            candidate += 1;
        }
        candidate
    }

    /// The greatest value of the domain that is not above `from`.
    fn next_value_down(&self, i: usize, from: i32) -> (r: i32)
        requires
            i < self.domains.len(),
            rep_wf(self.domains[i as int].rep()),
            from >= self.domains[i as int].lower_bound,
        ensures
            self.domains[i as int].lower_bound <= r <= from,
            !self.domains[i as int].holes@.contains(r),
            forall|u: i32| r < u <= from ==> #[trigger] self.domains[i as int].holes@.contains(u),
    {
        let lb = self.domains[i].lower_bound;
        let mut candidate = from;
        while self.is_removed(i, candidate)
            invariant
                i < self.domains.len(),
                rep_wf(self.domains[i as int].rep()),
                lb == self.domains[i as int].lower_bound,
                lb <= candidate <= from,
                forall|u: i32|
                    candidate < u <= from ==> #[trigger] self.domains[i as int].holes@.contains(u),
            decreases candidate - lb,
        {
            proof {
                assert(rep_contains(self.domains[i as int].rep(), lb as int));
            }
            candidate -= 1;
        }
        candidate
    }

    /// Records one change of the domain of `predicate`'s variable.
    fn push_entry(
        &mut self,
        predicate: Predicate,
        lower_bound: i32,
        upper_bound: i32,
        add_hole: bool,
        reason: Reason,
    )
        requires
            old(self).wf(),
            old(self).has(predicate.domain()),
            old(self).admits(reason@),
            change_ok(
                old(self).reps()[predicate.domain().index()],
                predicate,
                lower_bound,
                upper_bound,
                add_hole,
            ),
        ensures
            final(self).wf(),
            final(self).extends(old(self)),
            final(self).trail_len() == old(self).trail_len() + 1,
            final(self).entry(old(self).trail_len() as int).predicate == predicate,
            final(self).entry(old(self).trail_len() as int).level == old(self).level(),
            final(self).entry(old(self).trail_len() as int).reason@ == reason@,
            final(self).lower(predicate.domain()) == lower_bound,
            final(self).upper(predicate.domain()) == upper_bound,
            !old(self).satisfies(predicate),
            forall|y: DomainId, v: int| #[trigger]
                final(self).contains(y, v) <==> old(self).contains(y, v) && (y
                    == predicate.domain() ==> predicate.holds(v)),
    {
        let x = predicate.get_domain().id as usize;
        let ghost before = *self;
        let ghost n = self.trail.len() as int;
        let ghost ghost_reason = reason;
        let ghost after = changed_rep(
            self.reps()[x as int],
            predicate,
            lower_bound,
            upper_bound,
            add_hole,
        );
        proof {
            assert(x as int == predicate.domain().index());
            assert(forall|v: int| #[trigger]
                rep_contains(after, v) <==> rep_contains(before.reps()[x as int], v)
                    && predicate.holds(v));
            assert(self.snapshot(n) == self.reps());
            assert(forall|y: int|
                0 <= y < self.domains.len() ==> rep_wf(#[trigger] self.snapshot(n)[y]));
            assert(rep_wf(before.reps()[x as int]));
            lemma_rep_satisfies(before.reps()[x as int], predicate);
            if before.satisfies(predicate) {
                assert forall|v: int| rep_contains(before.reps()[x as int], v) implies predicate.holds(v) by {
                    assert(before.contains(predicate.domain(), v));
                }
            }
            match ghost_reason {
                Reason::Eager(c) => {
                    assert forall|k: int| 0 <= k < c@.len() implies {
                        &&& 0 <= (#[trigger] c@[k]).domain().index() < before.reps().len()
                        &&& rep_satisfies(before.reps()[c@[k].domain().index()], c@[k])
                    } by {
                        let q = c@[k];
                        assert(before.satisfies(q));
                        let r = before.reps()[q.domain().index()];
                        assert(rep_wf(before.snapshot(n)[q.domain().index()]));
                        lemma_rep_satisfies(r, q);
                        assert forall|v: int| rep_contains(r, v) implies q.holds(v) by {
                            assert(before.contains(q.domain(), v));
                        }
                    }
                },
                _ => {},
            }
            assert(reason_fits(before.reps(), before.level_starts.len() as int, reason));
        }
        let entry = TrailEntry {
            predicate,
            level: self.level_starts.len(),
            old_lower_bound: self.domains[x].lower_bound,
            old_upper_bound: self.domains[x].upper_bound,
            added_hole: add_hole,
            reason,
        };
        proof {
            self.history@ = self.history@.push(self.reps());
        }
        self.trail.push(entry);
        self.domains[x].lower_bound = lower_bound;
        self.domains[x].upper_bound = upper_bound;
        if add_hole {
            self.domains[x].holes.push(predicate.get_right_hand_side());
        }
        proof {
            assert forall|m: int| 0 <= m <= n implies #[trigger] self.snapshot(m)
                == before.snapshot(m) by {}
            assert(self.snapshot(n + 1) == self.reps());
            assert(self.reps().len() == before.reps().len());
            assert forall|y: int| 0 <= y < before.reps().len() && y != x implies #[trigger] self.reps()[y]
                == before.reps()[y] by {}
            assert(self.snapshot(n) == before.reps());
            assert(self.trail[n].predicate == predicate);
            assert(self.reps()[x as int].holes =~= after.holes);
            assert(self.reps()[x as int] == after);
            assert(self.snapshot(n + 1)[x as int] == after);
            assert(self.snapshot(n)[x as int] == before.reps()[x as int]);
            assert(self.trail[n].predicate.domain().index() == x as int);
            assert(step_ok(self.snapshot(n), self.trail[n], self.snapshot(n + 1)));
            assert forall|i: int| 0 <= i < self.trail.len() implies step_ok(
                self.snapshot(i),
                #[trigger] self.trail[i],
                self.snapshot(i + 1),
            ) by {
                if i < n {
                    assert(step_ok(before.snapshot(i), before.trail[i], before.snapshot(i + 1)));
                }
            }
            assert forall|i: int| 0 <= i < self.trail.len() implies reason_fits(
                self.snapshot(i),
                (#[trigger] self.trail[i]).level as int,
                self.trail[i].reason,
            ) by {
                if i < n {
                    assert(reason_fits(
                        before.snapshot(i),
                        before.trail[i].level as int,
                        before.trail[i].reason,
                    ));
                }
            }
            assert forall|m: int, y: int|
                0 <= m <= self.trail.len() && 0 <= y < self.domains.len() implies rep_wf(
                #[trigger] self.snapshot(m)[y],
            ) by {
                if m <= n {
                    assert(rep_wf(before.snapshot(m)[y]));
                } else if y != x {
                    assert(rep_wf(before.snapshot(n)[y]));
                }
            }
            assert forall|y: int| 0 <= y < self.domains.len() implies self.snapshot(0)[y] == (
            #[trigger] self.domains[y]).initial_rep() by {
                assert(before.snapshot(0)[y] == before.domains[y].initial_rep());
            }
            assert(self.store_wf());
            assert forall|i: int, j: int| 0 <= i <= j < self.trail.len() implies (
            #[trigger] self.trail[i]).level <= (#[trigger] self.trail[j]).level by {
                if j < n {
                    assert(before.trail[i].level <= before.trail[j].level);
                } else if i < n {
                    assert(before.trail[i].level <= before.level_starts.len());
                }
            }
            assert forall|i: int, k: int|
                0 <= i < self.trail.len() && 0 <= k < self.level_starts.len() implies ((
            #[trigger] self.trail[i]).level <= k <==> i < #[trigger] self.level_starts[k]) by {
                if i < n {
                    assert(before.trail[i].level <= k <==> i < before.level_starts[k]);
                } else {
                    assert(before.level_starts[k] <= n);
                }
            }
            assert(self.levels_wf());
            assert forall|y: DomainId, v: int| #[trigger]
                self.contains(y, v) <==> before.contains(y, v) && (y == predicate.domain()
                    ==> predicate.holds(v)) by {
                if y.index() < self.domains.len() && y.index() != x {
                    assert(self.reps()[y.index()] == before.reps()[y.index()]);
                }
            }
        }
    }

    /// Raises the lower bound of `x` to the least value of its domain that
    /// is not below `lower_bound`.
    pub fn set_lower_bound(&mut self, x: DomainId, lower_bound: i32, reason: Reason) -> (r: Result<
        (),
        EmptyDomain,
    >)
        requires
            old(self).wf(),
            old(self).has(x),
            old(self).admits(reason@),
        ensures
            final(self).wf(),
            r is Err <==> old(self).falsifies(Predicate::LowerBound { domain_id: x, lower_bound }),
            r is Err ==> *final(self) == *old(self),
            r is Ok ==> final(self).posted(
                old(self),
                Predicate::LowerBound { domain_id: x, lower_bound },
                reason@,
            ),
    {
        let i = x.id as usize;
        let lb = self.domains[i].lower_bound;
        let ub = self.domains[i].upper_bound;
        let ghost p = Predicate::LowerBound { domain_id: x, lower_bound };
        let ghost before = *self;
        proof {
            let r = self.snapshot(self.trail.len() as int)[i as int];
            assert(rep_wf(r));
            self.lemma_rep_matches(p);
        }
        if lower_bound <= lb {
            return Ok(());
        }
        if lower_bound > ub {
            return Err(EmptyDomain);
        }
        let new_bound = self.next_value_up(i, lower_bound);
        let recorded = Predicate::LowerBound { domain_id: x, lower_bound: new_bound };
        proof {
            let r = self.reps()[i as int];
            let after = changed_rep(r, recorded, new_bound, ub, false);
            assert forall|v: int| #[trigger]
                rep_contains(after, v) <==> rep_contains(r, v) && recorded.holds(v) by {}
        }
        self.push_entry(recorded, new_bound, ub, false, reason);
        proof {
            assert forall|y: DomainId, v: int| #[trigger]
                self.contains(y, v) <==> before.contains(y, v) && (y == p.domain() ==> p.holds(
                    v,
                )) by {
                if y == x && before.contains(y, v) && lower_bound <= v < new_bound {
                    assert(before.reps()[i as int].holes.contains(v as i32));
                }
            }
        }
        Ok(())
    }

    /// Lowers the upper bound of `x` to the greatest value of its domain
    /// that is not above `upper_bound`.
    pub fn set_upper_bound(&mut self, x: DomainId, upper_bound: i32, reason: Reason) -> (r: Result<
        (),
        EmptyDomain,
    >)
        requires
            old(self).wf(),
            old(self).has(x),
            old(self).admits(reason@),
        ensures
            final(self).wf(),
            r is Err <==> old(self).falsifies(Predicate::UpperBound { domain_id: x, upper_bound }),
            r is Err ==> *final(self) == *old(self),
            r is Ok ==> final(self).posted(
                old(self),
                Predicate::UpperBound { domain_id: x, upper_bound },
                reason@,
            ),
    {
        let i = x.id as usize;
        let lb = self.domains[i].lower_bound;
        let ub = self.domains[i].upper_bound;
        let ghost p = Predicate::UpperBound { domain_id: x, upper_bound };
        let ghost before = *self;
        proof {
            let r = self.snapshot(self.trail.len() as int)[i as int];
            assert(rep_wf(r));
            self.lemma_rep_matches(p);
        }
        if upper_bound >= ub {
            return Ok(());
        }
        if upper_bound < lb {
            return Err(EmptyDomain);
        }
        let new_bound = self.next_value_down(i, upper_bound);
        let recorded = Predicate::UpperBound { domain_id: x, upper_bound: new_bound };
        proof {
            let r = self.reps()[i as int];
            let after = changed_rep(r, recorded, lb, new_bound, false);
            assert forall|v: int| #[trigger]
                rep_contains(after, v) <==> rep_contains(r, v) && recorded.holds(v) by {}
        }
        self.push_entry(recorded, lb, new_bound, false, reason);
        proof {
            assert forall|y: DomainId, v: int| #[trigger]
                self.contains(y, v) <==> before.contains(y, v) && (y == p.domain() ==> p.holds(
                    v,
                )) by {
                if y == x && before.contains(y, v) && new_bound < v <= upper_bound {
                    assert(before.reps()[i as int].holes.contains(v as i32));
                }
            }
        }
        Ok(())
    }

    /// Takes the value `value` out of the domain of `x`.
    pub fn remove(&mut self, x: DomainId, value: i32, reason: Reason) -> (r: Result<
        (),
        EmptyDomain,
    >)
        requires
            old(self).wf(),
            old(self).has(x),
            old(self).admits(reason@),
        ensures
            final(self).wf(),
            r is Err <==> old(self).falsifies(
                Predicate::NotEqual { domain_id: x, not_equal_constant: value },
            ),
            r is Err ==> *final(self) == *old(self),
            r is Ok ==> final(self).posted(
                old(self),
                Predicate::NotEqual { domain_id: x, not_equal_constant: value },
                reason@,
            ),
    {
        let i = x.id as usize;
        let lb = self.domains[i].lower_bound;
        let ub = self.domains[i].upper_bound;
        let p = Predicate::NotEqual { domain_id: x, not_equal_constant: value };
        proof {
            let r = self.snapshot(self.trail.len() as int)[i as int];
            assert(rep_wf(r));
            self.lemma_rep_matches(p);
        }
        if value < lb || value > ub || self.is_removed(i, value) {
            return Ok(());
        }
        if lb == ub {
            return Err(EmptyDomain);
        }
        let ghost r = self.reps()[i as int];
        if value == lb {
            let new_bound = self.next_value_up(i, value + 1);
            proof {
                let after = changed_rep(r, p, new_bound, ub, false);
                assert forall|v: int| #[trigger]
                    rep_contains(after, v) <==> rep_contains(r, v) && p.holds(v) by {
                    if value < v < new_bound {
                        assert(r.holes.contains(v as i32));
                    }
                }
            }
            self.push_entry(p, new_bound, ub, false, reason);
        } else if value == ub {
            let new_bound = self.next_value_down(i, value - 1);
            proof {
                let after = changed_rep(r, p, lb, new_bound, false);
                assert forall|v: int| #[trigger]
                    rep_contains(after, v) <==> rep_contains(r, v) && p.holds(v) by {
                    if new_bound < v < value {
                        assert(r.holes.contains(v as i32));
                    }
                }
            }
            self.push_entry(p, lb, new_bound, false, reason);
        } else {
            proof {
                let after = changed_rep(r, p, lb, ub, true);
                assert forall|v: int| #[trigger]
                    rep_contains(after, v) <==> rep_contains(r, v) && p.holds(v) by {
                    lemma_push_contains(r.holes, value, v as i32);
                }
                lemma_push_contains(r.holes, value, lb);
                lemma_push_contains(r.holes, value, ub);
            }
            self.push_entry(p, lb, ub, true, reason);
        }
        Ok(())
    }

    /// Leaves `x` the one value `value`.
    pub fn assign(&mut self, x: DomainId, value: i32, reason: Reason) -> (r: Result<
        (),
        EmptyDomain,
    >)
        requires
            old(self).wf(),
            old(self).has(x),
            old(self).admits(reason@),
        ensures
            final(self).wf(),
            r is Err <==> old(self).falsifies(
                Predicate::Equal { domain_id: x, equality_constant: value },
            ),
            r is Err ==> *final(self) == *old(self),
            r is Ok ==> final(self).posted(
                old(self),
                Predicate::Equal { domain_id: x, equality_constant: value },
                reason@,
            ),
    {
        let i = x.id as usize;
        let lb = self.domains[i].lower_bound;
        let ub = self.domains[i].upper_bound;
        let p = Predicate::Equal { domain_id: x, equality_constant: value };
        proof {
            let r = self.snapshot(self.trail.len() as int)[i as int];
            assert(rep_wf(r));
            self.lemma_rep_matches(p);
        }
        if value < lb || value > ub || self.is_removed(i, value) {
            return Err(EmptyDomain);
        }
        if lb == ub {
            return Ok(());
        }
        proof {
            let r = self.reps()[i as int];
            let after = changed_rep(r, p, value, value, false);
            assert forall|v: int| #[trigger]
                rep_contains(after, v) <==> rep_contains(r, v) && p.holds(v) by {}
        }
        self.push_entry(p, value, value, false, reason);
        Ok(())
    }

    /// Posts a predicate of any of the four kinds.
    pub fn post_predicate(&mut self, predicate: Predicate, reason: Reason) -> (r: Result<
        (),
        EmptyDomain,
    >)
        requires
            old(self).wf(),
            old(self).has(predicate.domain()),
            old(self).admits(reason@),
        ensures
            final(self).wf(),
            r is Err <==> old(self).falsifies(predicate),
            r is Err ==> *final(self) == *old(self),
            r is Ok ==> final(self).posted(old(self), predicate, reason@),
    {
        match predicate {
            Predicate::LowerBound { domain_id, lower_bound } => self.set_lower_bound(
                domain_id,
                lower_bound,
                reason,
            ),
            Predicate::UpperBound { domain_id, upper_bound } => self.set_upper_bound(
                domain_id,
                upper_bound,
                reason,
            ),
            Predicate::NotEqual { domain_id, not_equal_constant } => self.remove(
                domain_id,
                not_equal_constant,
                reason,
            ),
            Predicate::Equal { domain_id, equality_constant } => self.assign(
                domain_id,
                equality_constant,
                reason,
            ),
        }
    }

    /// Whether `self` is `old` taken back to `level`: the levels above it
    /// are closed, their trail entries are gone, and every domain is what it
    /// was when the first of them was about to be made.
    pub open spec fn restored(&self, old: &Assignments, level: int) -> bool {
        &&& self.level() == level
        &&& self.num_domains() == old.num_domains()
        &&& self.trail_len() == if level < old.level() {
            old.level_start(level)
        } else {
            old.trail_len() as int
        }
        &&& (forall|k: int| 0 <= k < level ==> #[trigger] self.level_start(k) == old.level_start(k))
        &&& (forall|i: int| 0 <= i < self.trail_len() ==> #[trigger] self.entry(i) == old.entry(i))
        &&& (forall|n: int, x: DomainId, v: int|
            0 <= n <= self.trail_len() ==> (#[trigger] self.contains_at(n, x, v)
                <==> old.contains_at(n, x, v)))
        &&& (forall|n: int, x: DomainId|
            0 <= n <= self.trail_len() ==> #[trigger] self.lower_at(n, x) == old.lower_at(n, x))
        &&& (forall|n: int, x: DomainId|
            0 <= n <= self.trail_len() ==> #[trigger] self.upper_at(n, x) == old.upper_at(n, x))
        &&& (forall|x: DomainId|
            old.has(x) ==> #[trigger] self.initial_lower(x) == old.initial_lower(x))
        &&& (forall|x: DomainId|
            old.has(x) ==> #[trigger] self.initial_upper(x) == old.initial_upper(x))
    }

    /// Takes the store back to decision level `level`: pops the trail
    /// entries of the levels above it, newest first, and restores from each
    /// the bounds and the value that it records.
    pub fn backtrack(&mut self, level: usize)
        requires
            old(self).wf(),
            level <= old(self).level(),
        ensures
            final(self).wf(),
            final(self).restored(old(self), level as int),
    {
        if level >= self.level_starts.len() {
            return ;
        }
        let ghost before = *self;
        let target = self.level_starts[level];
        self.level_starts.truncate(level);
        proof {
            assert(self.reps() =~= before.reps());
            assert forall|n: int| 0 <= n <= self.trail.len() implies #[trigger] self.snapshot(n)
                == before.snapshot(n) by {}
            assert(self.store_wf());
        }
        while self.trail.len() > target
            invariant
                before.wf(),
                level < before.level_starts.len(),
                target == before.level_starts[level as int],
                self.store_wf(),
                self.level_starts@ == before.level_starts@.take(level as int),
                target <= self.trail.len() <= before.trail.len(),
                self.trail@ == before.trail@.take(self.trail.len() as int),
                self.domains.len() == before.domains.len(),
                forall|n: int|
                    0 <= n <= self.trail.len() ==> #[trigger] self.snapshot(n) == before.snapshot(
                        n,
                    ),
                forall|x: int|
                    0 <= x < self.domains.len() ==> (#[trigger] self.domains[x]).initial_rep()
                        == before.domains[x].initial_rep(),
            decreases self.trail.len(),
        {
            let ghost current = *self;
            let ghost m = self.trail.len() - 1;
            proof {
                assert(step_ok(self.snapshot(m), self.trail[m], self.snapshot(m + 1)));
                assert(self.snapshot(m + 1) == self.reps());
            }
            let entry = self.trail.pop().unwrap();
            let x = entry.predicate.get_domain().id as usize;
            self.domains[x].lower_bound = entry.old_lower_bound;
            self.domains[x].upper_bound = entry.old_upper_bound;
            if entry.added_hole {
                let _ = self.domains[x].holes.pop();
            }
            proof {
                self.history@ = self.history@.drop_last();
                let earlier = current.snapshot(m);
                assert(self.reps()[x as int].holes =~= earlier[x as int].holes);
                assert forall|y: int| 0 <= y < self.domains.len() implies self.reps()[y]
                    == earlier[y] by {
                    if y != x {
                        assert(current.reps()[y] == earlier[y]);
                    }
                }
                assert(self.reps() =~= earlier);
                assert forall|n: int| 0 <= n <= self.trail.len() implies #[trigger] self.snapshot(
                    n,
                ) == current.snapshot(n) by {}
                assert(self.trail@ =~= before.trail@.take(self.trail.len() as int));
                assert forall|i: int| 0 <= i < self.trail.len() implies step_ok(
                    self.snapshot(i),
                    #[trigger] self.trail[i],
                    self.snapshot(i + 1),
                ) by {
                    assert(step_ok(current.snapshot(i), current.trail[i], current.snapshot(i + 1)));
                }
                assert forall|i: int| 0 <= i < self.trail.len() implies reason_fits(
                    self.snapshot(i),
                    (#[trigger] self.trail[i]).level as int,
                    self.trail[i].reason,
                ) by {
                    assert(reason_fits(
                        current.snapshot(i),
                        current.trail[i].level as int,
                        current.trail[i].reason,
                    ));
                }
                assert forall|n: int, y: int|
                    0 <= n <= self.trail.len() && 0 <= y < self.domains.len() implies rep_wf(
                    #[trigger] self.snapshot(n)[y],
                ) by {
                    assert(rep_wf(current.snapshot(n)[y]));
                }
                assert forall|y: int| 0 <= y < self.domains.len() implies self.snapshot(0)[y] == (
                #[trigger] self.domains[y]).initial_rep() by {
                    assert(current.snapshot(0)[y] == current.domains[y].initial_rep());
                }
                assert(self.store_wf());
            }
        }
        proof {
            assert forall|i: int, j: int| 0 <= i <= j < self.trail.len() implies (
            #[trigger] self.trail[i]).level <= (#[trigger] self.trail[j]).level by {
                assert(before.trail[i].level <= before.trail[j].level);
            }
            assert forall|i: int| 0 <= i < self.trail.len() implies (#[trigger] self.trail[i]).level
                <= self.level_starts.len() by {
                assert(before.trail[i].level <= level <==> i < before.level_starts[level as int]);
            }
            assert forall|k: int| 0 <= k < self.level_starts.len() implies #[trigger] self.level_starts[k]
                <= self.trail.len() by {
                if before.level_starts[k] > target {
                    let i = target as int;
                    assert(before.trail[i].level <= k <==> i < before.level_starts[k]);
                    assert(before.trail[i].level <= level <==> i < before.level_starts[level as int]);
                }
            }
            assert forall|i: int, k: int|
                0 <= i < self.trail.len() && 0 <= k < self.level_starts.len() implies ((
            #[trigger] self.trail[i]).level <= k <==> i < #[trigger] self.level_starts[k]) by {
                assert(before.trail[i].level <= k <==> i < before.level_starts[k]);
            }
            assert(self.levels_wf());
        }
    }

    /// Whether `p` is satisfied in the domain with the given bounds and the
    /// first `hole_count` removed values of variable `i`.
    fn holds_in(&self, i: usize, lower: i32, upper: i32, hole_count: usize, p: Predicate) -> (r:
        bool)
        requires
            i < self.domains.len(),
            hole_count <= self.domains[i as int].holes.len(),
        ensures
            r == rep_satisfies(
                DomainRep {
                    lower,
                    upper,
                    holes: self.domains[i as int].holes@.take(hole_count as int),
                },
                p,
            ),
    {
        match p {
            Predicate::LowerBound { lower_bound, .. } => lower >= lower_bound,
            Predicate::UpperBound { upper_bound, .. } => upper <= upper_bound,
            Predicate::Equal { equality_constant, .. } => lower == equality_constant && upper
                == equality_constant,
            Predicate::NotEqual { not_equal_constant, .. } => {
                if not_equal_constant < lower || not_equal_constant > upper {
                    return true;
                }
                let holes = &self.domains[i].holes;
                let ghost prefix = holes@.take(hole_count as int);
                let mut k: usize = 0;
                while k < hole_count
                    invariant
                        i < self.domains.len(),
                        holes@ == self.domains[i as int].holes@,
                        k <= hole_count <= holes.len(),
                        prefix == holes@.take(hole_count as int),
                        p is NotEqual,
                        p.constant() == not_equal_constant,
                        lower <= not_equal_constant <= upper,
                        forall|j: int| 0 <= j < k ==> prefix[j] != not_equal_constant,
                    decreases hole_count - k,
                {
                    if holes[k] == not_equal_constant {
                        assert(prefix.len() == hole_count);
                        assert(prefix[k as int] == not_equal_constant);
                        assert(prefix.contains(not_equal_constant));
                        assert(prefix == self.domains[i as int].holes@.take(hole_count as int));
                        return true;
                    }
                    k += 1;
                }
                false
            },
        }
    }

    /// Whether the change recorded at position `i` made `p` true.
    pub open spec fn is_position_of(&self, i: int, p: Predicate) -> bool {
        0 <= i < self.trail_len() && !self.satisfied_at(i, p) && self.satisfied_at(i + 1, p)
    }

    /// The position of the trail entry that made `p` true; `None` where `p`
    /// does not hold, or held before the first entry.
    pub open spec fn trail_position(&self, p: Predicate) -> Option<int> {
        if exists|i: int| self.is_position_of(i, p) {
            Some(choose|i: int| self.is_position_of(i, p))
        } else {
            None
        }
    }

    /// The decision level at which `p` became true, if it holds.
    pub open spec fn decision_level_of(&self, p: Predicate) -> Option<int> {
        if !self.satisfies(p) {
            None
        } else {
            match self.trail_position(p) {
                Some(i) => Some(self.entry(i).level as int),
                None => Some(0),
            }
        }
    }

    /// At most one trail entry made a given predicate true.
    pub proof fn lemma_position_unique(&self, i: int, j: int, p: Predicate)
        requires
            self.wf(),
            self.is_position_of(i, p),
            self.is_position_of(j, p),
        ensures
            i == j,
    {
        if i < j {
            self.lemma_satisfied_stays(i + 1, j, p);
        }
        if j < i {
            self.lemma_satisfied_stays(j + 1, i, p);
        }
    }

    proof fn lemma_rep_matches_at(&self, n: int, p: Predicate)
        requires
            self.store_wf(),
            0 <= n <= self.trail.len(),
            self.has(p.domain()),
        ensures
            self.satisfied_at(n, p) <==> rep_satisfies(self.snapshot(n)[p.domain().index()], p),
    {
        let r = self.snapshot(n)[p.domain().index()];
        assert(rep_wf(r));
        lemma_rep_satisfies(r, p);
        if self.satisfied_at(n, p) {
            assert forall|v: int| rep_contains(r, v) implies p.holds(v) by {
                assert(self.contains_at(n, p.domain(), v));
            }
        }
    }

    /// The position of the trail entry that made `predicate` true.
    pub fn get_trail_position(&self, predicate: Predicate) -> (r: Option<usize>)
        requires
            self.wf(),
            self.has(predicate.domain()),
        ensures
            r matches Some(i) ==> self.is_position_of(i as int, predicate),
            r is None ==> !self.satisfies(predicate) || self.satisfied_at(0, predicate),
            r is Some ==> self.satisfies(predicate),
            match r {
                Some(i) => self.trail_position(predicate) == Some(i as int),
                None => self.trail_position(predicate) is None,
            },
    {
        if !self.is_predicate_satisfied(predicate) {
            proof {
                if exists|i: int| self.is_position_of(i, predicate) {
                    let i = choose|i: int| self.is_position_of(i, predicate);
                    self.lemma_satisfied_stays(i + 1, self.trail_len() as int, predicate);
                }
            }
            return None;
        }
        let x = predicate.get_domain();
        let i = x.id as usize;
        let mut lower = self.domains[i].lower_bound;
        let mut upper = self.domains[i].upper_bound;
        let mut hole_count = self.domains[i].holes.len();
        let mut n = self.trail.len();
        proof {
            assert(self.snapshot(n as int) == self.reps());
            assert(self.domains[i as int].holes@.take(hole_count as int)
                =~= self.domains[i as int].holes@);
        }
        while n > 0
            invariant
                self.wf(),
                self.has(x),
                x == predicate.domain(),
                i == x.index(),
                n <= self.trail.len(),
                hole_count <= self.domains[i as int].holes.len(),
                self.snapshot(n as int)[i as int] == (DomainRep {
                    lower,
                    upper,
                    holes: self.domains[i as int].holes@.take(hole_count as int),
                }),
                self.satisfied_at(n as int, predicate),
                self.satisfies(predicate),
            decreases n,
        {
            let entry = &self.trail[n - 1];
            proof {
                assert(step_ok(
                    self.snapshot(n - 1),
                    self.trail[n - 1],
                    self.snapshot(n as int),
                ));
            }
            if entry.predicate.get_domain() == x {
                let ghost earlier = self.snapshot(n - 1)[i as int];
                proof {
                    if entry.added_hole {
                        let pushed = earlier.holes.push(entry.predicate.constant() as i32);
                        let taken = self.domains[i as int].holes@.take(hole_count as int);
                        assert(pushed == taken);
                        assert(pushed.len() == earlier.holes.len() + 1);
                        assert forall|k: int| 0 <= k < earlier.holes.len() implies earlier.holes[k]
                            == self.domains[i as int].holes@[k] by {
                            assert(pushed[k] == earlier.holes[k]);
                            assert(taken[k] == self.domains[i as int].holes@[k]);
                        }
                        assert(earlier.holes =~= self.domains[i as int].holes@.take(
                            hole_count - 1,
                        ));
                    }
                }
                let earlier_count = if entry.added_hole {
                    hole_count - 1
                } else {
                    hole_count
                };
                if !self.holds_in(
                    i,
                    entry.old_lower_bound,
                    entry.old_upper_bound,
                    earlier_count,
                    predicate,
                ) {
                    proof {
                        self.lemma_rep_matches_at(n - 1, predicate);
                        assert(self.is_position_of(n - 1, predicate));
                        let j = choose|j: int| self.is_position_of(j, predicate);
                        self.lemma_position_unique(j, n - 1, predicate);
                    }
                    return Some(n - 1);
                }
                proof {
                    self.lemma_rep_matches_at(n - 1, predicate);
                }
                lower = entry.old_lower_bound;
                upper = entry.old_upper_bound;
                hole_count = earlier_count;
            } else {
                proof {
                    assert(self.snapshot(n - 1)[i as int] == self.snapshot(n as int)[i as int]);
                    self.lemma_rep_matches_at(n - 1, predicate);
                    self.lemma_rep_matches_at(n as int, predicate);
                }
            }
            n -= 1;
        }
        proof {
            if exists|j: int| self.is_position_of(j, predicate) {
                let j = choose|j: int| self.is_position_of(j, predicate);
                self.lemma_satisfied_stays(0, j, predicate);
            }
        }
        None
    }

    /// The decision level at which `predicate` became true; `None` where it
    /// does not hold, and 0 where it held before the first trail entry.
    pub fn get_decision_level_for_predicate(&self, predicate: Predicate) -> (r: Option<usize>)
        requires
            self.wf(),
            self.has(predicate.domain()),
        ensures
            r is None <==> !self.satisfies(predicate),
            match r {
                Some(level) => self.decision_level_of(predicate) == Some(level as int) && level
                    <= self.level(),
                None => self.decision_level_of(predicate) is None,
            },
    {
        if !self.is_predicate_satisfied(predicate) {
            return None;
        }
        match self.get_trail_position(predicate) {
            Some(i) => {
                proof {
                    self.lemma_levels(i as int, i as int);
                }
                Some(self.trail[i].level)
            },
            None => Some(0),
        }
    }

    /// Whether `p` is a decision: the search posted `p` itself.
    pub open spec fn decided(&self, p: Predicate) -> bool {
        self.trail_position(p) matches Some(i) && self.entry(i).predicate == p && self.entry(
            i,
        ).reason is Decision
    }

    pub fn is_decision_predicate(&self, predicate: Predicate) -> (r: bool)
        requires
            self.wf(),
            self.has(predicate.domain()),
        ensures
            r == self.decided(predicate),
    {
        match self.get_trail_position(predicate) {
            Some(i) => self.trail[i].predicate == predicate && matches!(
                self.trail[i].reason,
                Reason::Decision
            ),
            None => false,
        }
    }

    /// The place of `p` in the order in which predicates became true: twice
    /// the position of the trail entry that made `p` true, plus one where
    /// that entry records another predicate, of which `p` is a consequence;
    /// -1 where `p` does not hold or held from the start.
    pub open spec fn key_of(&self, p: Predicate) -> int {
        match self.trail_position(p) {
            Some(i) => 2 * i + if self.entry(i).predicate == p {
                0int
            } else {
                1int
            },
            None => -1,
        }
    }

    /// The predicates from which `p` follows at the point where it became
    /// true: the predicate of the trail entry, where that is another
    /// predicate than `p`; otherwise the conjunction that was stored as the
    /// reason of the entry. `None` where `p` has no trail entry, or the
    /// entry of `p` has no stored conjunction.
    pub open spec fn explanation(&self, p: Predicate) -> Option<Seq<Predicate>> {
        match self.trail_position(p) {
            Some(i) => if self.entry(i).predicate != p {
                Some(seq![self.entry(i).predicate])
            } else {
                match self.entry(i).reason@ {
                    ReasonView::Eager(c) => Some(c),
                    _ => None,
                }
            },
            None => None,
        }
    }

    /// The predicates from which `predicate` follows; `None` where it has
    /// no explanation.
    pub fn get_propagation_reason(&self, predicate: Predicate) -> (r: Option<Vec<Predicate>>)
        requires
            self.wf(),
            self.has(predicate.domain()),
        ensures
            match r {
                Some(c) => self.explanation(predicate) == Some(c@),
                None => self.explanation(predicate) is None,
            },
    {
        match self.get_trail_position(predicate) {
            Some(i) => {
                if self.trail[i].predicate != predicate {
                    let mut reason: Vec<Predicate> = Vec::new();
                    reason.push(self.trail[i].predicate);
                    Some(reason)
                } else {
                    match &self.trail[i].reason {
                        Reason::Eager(conjunction) => Some(conjunction.to_vec()),
                        _ => None,
                    }
                }
            },
            None => None,
        }
    }

    /// Each predicate of the explanation of `p` speaks of a variable of the
    /// store, holds, became true before `p`, and at no higher level.
    pub proof fn lemma_explanation_earlier(&self, p: Predicate, k: int)
        requires
            self.wf(),
            self.has(p.domain()),
            self.explanation(p) is Some,
            0 <= k < self.explanation(p)->0.len(),
        ensures
            self.has(self.explanation(p)->0[k].domain()),
            self.satisfies(self.explanation(p)->0[k]),
            self.key_of(self.explanation(p)->0[k]) < self.key_of(p),
            self.decision_level_of(self.explanation(p)->0[k]) is Some,
            self.decision_level_of(p) is Some,
            self.decision_level_of(self.explanation(p)->0[k])->0 <= self.decision_level_of(p)->0,
    {
        let i = self.trail_position(p)->0;
        let q = self.explanation(p)->0[k];
        assert(self.is_position_of(i, p));
        self.lemma_step(i);
        self.lemma_satisfied_stays(i + 1, self.trail_len() as int, p);
        if self.entry(i).predicate != p {
            assert(q == self.entry(i).predicate);
            assert(self.is_position_of(i, q));
            self.lemma_satisfied_stays(i + 1, self.trail_len() as int, q);
            self.lemma_position_is(i, q);
        } else {
            self.lemma_reason_valid(i);
            assert(self.satisfied_at(i, q));
            self.lemma_satisfied_stays(i, self.trail_len() as int, q);
            if exists|j: int| self.is_position_of(j, q) {
                let j = choose|j: int| self.is_position_of(j, q);
                self.lemma_position_is(j, q);
                if j >= i {
                    self.lemma_satisfied_stays(i, j, q);
                }
                self.lemma_levels(j, i);
            }
        }
    }

    /// The trail entry that made a predicate true is its trail position.
    pub proof fn lemma_position_is(&self, i: int, p: Predicate)
        requires
            self.wf(),
            self.is_position_of(i, p),
        ensures
            self.trail_position(p) == Some(i),
    {
        let j = choose|j: int| self.is_position_of(j, p);
        self.lemma_position_unique(i, j, p);
    }

    /// A predicate that holds at a level above the root has a trail entry.
    pub proof fn lemma_level_has_position(&self, p: Predicate)
        requires
            self.wf(),
            self.decision_level_of(p) matches Some(level) && level > 0,
        ensures
            self.trail_position(p) matches Some(i) && 0 <= i < self.trail_len()
                && self.is_position_of(i, p) && self.entry(i).level == self.decision_level_of(
                p,
            )->0,
            0 <= self.key_of(p) <= 2 * self.trail_len(),
    {
        let i = choose|i: int| self.is_position_of(i, p);
        assert(self.is_position_of(i, p));
    }

    /// Whether the two stores have the same variables, levels and trail, and
    /// the same domains at every point of the trail.
    pub open spec fn same_state(&self, other: &Assignments) -> bool {
        &&& self.num_domains() == other.num_domains()
        &&& self.level() == other.level()
        &&& self.trail_len() == other.trail_len()
        &&& (forall|k: int|
            0 <= k < self.level() ==> #[trigger] self.level_start(k) == other.level_start(k))
        &&& (forall|i: int| 0 <= i < self.trail_len() ==> #[trigger] self.entry(i) == other.entry(i))
        &&& (forall|n: int, x: DomainId, v: int|
            0 <= n <= self.trail_len() ==> (#[trigger] self.contains_at(n, x, v)
                <==> other.contains_at(n, x, v)))
        &&& (forall|n: int, x: DomainId|
            0 <= n <= self.trail_len() ==> #[trigger] self.lower_at(n, x) == other.lower_at(n, x))
        &&& (forall|n: int, x: DomainId|
            0 <= n <= self.trail_len() ==> #[trigger] self.upper_at(n, x) == other.upper_at(n, x))
        &&& (forall|x: DomainId|
            self.has(x) ==> #[trigger] self.initial_lower(x) == other.initial_lower(x))
        &&& (forall|x: DomainId|
            self.has(x) ==> #[trigger] self.initial_upper(x) == other.initial_upper(x))
    }

    /// The domain of a variable is the interval with which it was created,
    /// without the values that a predicate on the trail excludes.
    pub proof fn lemma_domain_is_filtered_interval(&self, n: int, x: DomainId, v: int)
        requires
            self.wf(),
            0 <= n <= self.trail_len(),
            self.has(x),
        ensures
            self.contains_at(n, x, v) <==> (self.initial_lower(x) <= v <= self.initial_upper(x)
                && forall|i: int|
                0 <= i < n && (#[trigger] self.entry(i)).predicate.domain() == x
                    ==> self.entry(i).predicate.holds(v)),
        decreases n,
    {
        if n == 0 {
            self.lemma_initial(x);
        } else {
            self.lemma_domain_is_filtered_interval(n - 1, x, v);
            self.lemma_step(n - 1);
            if self.contains_at(n, x, v) {
                assert forall|i: int|
                    0 <= i < n && (#[trigger] self.entry(i)).predicate.domain()
                        == x implies self.entry(i).predicate.holds(v) by {}
            }
        }
    }

    /// After a backtrack every domain is exactly what it was when the trail
    /// had the length that it has now.
    pub proof fn lemma_backtrack_restores(&self, old: &Assignments, level: int, x: DomainId, v: int)
        requires
            old.wf(),
            0 <= level <= old.level(),
            self.restored(old, level),
        ensures
            self.trail_len() <= old.trail_len(),
            self.contains(x, v) <==> old.contains_at(self.trail_len() as int, x, v),
            self.lower(x) == old.lower_at(self.trail_len() as int, x),
            self.upper(x) == old.upper_at(self.trail_len() as int, x),
    {
        if level < old.level() {
            if old.trail_len() > 0 {
                old.lemma_level_start(0, level);
            }
        }
    }

    /// Opening a level, posting a decision and backtracking to the level
    /// before leaves the store as it was.
    pub proof fn lemma_backtrack_undoes_decision(
        start: &Assignments,
        opened: &Assignments,
        decided: &Assignments,
        end: &Assignments,
        p: Predicate,
    )
        requires
            start.wf(),
            opened.opened(start),
            decided.posted(opened, p, ReasonView::Decision),
            end.restored(decided, start.level() as int),
        ensures
            end.same_state(start),
    {
        let k = start.level() as int;
        assert(decided.level_start(k) == opened.level_start(k));
        assert(end.trail_len() == start.trail_len());
        assert forall|i: int| 0 <= i < end.trail_len() implies #[trigger] end.entry(i)
            == start.entry(i) by {
            assert(decided.entry(i) == opened.entry(i));
        }
        assert forall|n: int, x: DomainId, v: int| 0 <= n <= end.trail_len() implies (
        #[trigger] end.contains_at(n, x, v) <==> start.contains_at(n, x, v)) by {
            assert(decided.contains_at(n, x, v) <==> opened.contains_at(n, x, v));
        }
        assert forall|n: int, x: DomainId| 0 <= n <= end.trail_len() implies #[trigger] end.lower_at(
            n,
            x,
        ) == start.lower_at(n, x) by {
            assert(decided.lower_at(n, x) == opened.lower_at(n, x));
        }
        assert forall|n: int, x: DomainId| 0 <= n <= end.trail_len() implies #[trigger] end.upper_at(
            n,
            x,
        ) == start.upper_at(n, x) by {
            assert(decided.upper_at(n, x) == opened.upper_at(n, x));
        }
        assert forall|j: int| 0 <= j < end.level() implies #[trigger] end.level_start(j)
            == start.level_start(j) by {
            assert(decided.level_start(j) == opened.level_start(j));
        }
    }

    /// Continuing is transitive.
    pub proof fn lemma_extends_transitive(&self, middle: &Assignments, earlier: &Assignments)
        requires
            self.extends(middle),
            middle.extends(earlier),
        ensures
            self.extends(earlier),
    {
        assert forall|k: int| 0 <= k < earlier.level() implies #[trigger] self.level_start(k)
            == earlier.level_start(k) by {
            assert(middle.level_start(k) == earlier.level_start(k));
        }
        assert forall|i: int| 0 <= i < earlier.trail_len() implies #[trigger] self.entry(i)
            == earlier.entry(i) by {
            assert(middle.entry(i) == earlier.entry(i));
        }
        assert forall|n: int, x: DomainId, v: int| 0 <= n <= earlier.trail_len() implies (
        #[trigger] self.contains_at(n, x, v) <==> earlier.contains_at(n, x, v)) by {
            assert(middle.contains_at(n, x, v) <==> earlier.contains_at(n, x, v));
        }
        assert forall|n: int, x: DomainId| 0 <= n <= earlier.trail_len() implies #[trigger] self.lower_at(
            n,
            x,
        ) == earlier.lower_at(n, x) by {
            assert(middle.lower_at(n, x) == earlier.lower_at(n, x));
        }
        assert forall|n: int, x: DomainId| 0 <= n <= earlier.trail_len() implies #[trigger] self.upper_at(
            n,
            x,
        ) == earlier.upper_at(n, x) by {
            assert(middle.upper_at(n, x) == earlier.upper_at(n, x));
        }
        assert forall|x: DomainId| earlier.has(x) implies #[trigger] self.initial_lower(x)
            == earlier.initial_lower(x) by {
            assert(middle.initial_lower(x) == earlier.initial_lower(x));
        }
        assert forall|x: DomainId| earlier.has(x) implies #[trigger] self.initial_upper(x)
            == earlier.initial_upper(x) by {
            assert(middle.initial_upper(x) == earlier.initial_upper(x));
        }
    }

    /// A store continues itself.
    pub proof fn lemma_extends_reflexive(&self)
        ensures
            self.extends(self),
    {
    }

    /// A store that continues another has no value that the other lacks.
    pub proof fn lemma_extends_shrinks(&self, earlier: &Assignments, x: DomainId, v: int)
        requires
            self.wf(),
            self.extends(earlier),
            self.contains(x, v),
        ensures
            earlier.contains(x, v),
    {
        self.lemma_monotone(earlier.trail_len() as int, self.trail_len() as int, x, v);
    }

    /// What a store satisfies or falsifies, a store that continues it
    /// satisfies or falsifies too.
    pub proof fn lemma_extends_keeps(&self, earlier: &Assignments, p: Predicate)
        requires
            self.wf(),
            self.extends(earlier),
        ensures
            earlier.satisfies(p) ==> self.satisfies(p),
            earlier.falsifies(p) ==> self.falsifies(p),
    {
        if earlier.satisfies(p) {
            assert forall|v: int| #[trigger]
                self.contains_at(self.trail_len() as int, p.domain(), v) implies p.holds(v) by {
                self.lemma_extends_shrinks(earlier, p.domain(), v);
            }
        }
        if earlier.falsifies(p) {
            assert forall|v: int| #[trigger] self.contains(p.domain(), v) implies !p.holds(v) by {
                self.lemma_extends_shrinks(earlier, p.domain(), v);
            }
        }
    }

    /// What a store entails, a store that continues it entails too.
    pub proof fn lemma_extends_entails(&self, earlier: &Assignments, c: Seq<Predicate>)
        requires
            self.wf(),
            self.extends(earlier),
            earlier.entails(c),
        ensures
            self.entails(c),
    {
        assert forall|k: int| 0 <= k < c.len() implies self.satisfies(#[trigger] c[k]) by {
            self.lemma_extends_keeps(earlier, c[k]);
        }
    }

    /// The number of variables fits the index type of [`DomainId`].
    pub proof fn lemma_num_domains(&self)
        requires
            self.wf(),
        ensures
            self.num_domains() <= u32::MAX,
    {
    }

    /// Whether each predicate of `conjunction` speaks of a variable of the
    /// store and is satisfied.
    pub fn is_conjunction_entailed(&self, conjunction: &PropositionalConjunction) -> (r: bool)
        requires
            self.wf(),
        ensures
            r == self.entails(conjunction@),
    {
        let mut i: usize = 0;
        while i < conjunction.len()
            invariant
                self.wf(),
                i <= conjunction@.len(),
                forall|k: int| 0 <= k < i ==> self.satisfies(#[trigger] conjunction@[k]),
            decreases conjunction@.len() - i,
        {
            let predicate = conjunction.get(i);
            if predicate.get_domain().id as usize >= self.domains.len()
                || !self.is_predicate_satisfied(predicate) {
                return false;
            }
            i += 1;
        }
        true
    }

    /// The values that `x` had when the trail held its first `n` entries.
    pub open spec fn values_at(&self, n: int, x: DomainId) -> Set<int> {
        Set::new(|v: int| self.contains_at(n, x, v))
    }

    /// How many values the first `k` variables had to spare, each beyond its
    /// last one, when the trail held its first `n` entries.
    pub open spec fn spare_at(&self, n: int, k: nat) -> int
        decreases k,
    {
        if k == 0 {
            0
        } else {
            self.spare_at(n, (k - 1) as nat) + self.values_at(
                n,
                DomainId { id: (k - 1) as u32 },
            ).len() - 1
        }
    }

    /// How many values the variables have to spare: the number of trail
    /// entries that can still be made.
    pub open spec fn slack(&self) -> int {
        self.spare_at(self.trail_len() as int, self.num_domains())
    }

    /// A domain is a finite set with a value in it.
    pub proof fn lemma_values_finite(&self, n: int, x: DomainId)
        requires
            self.wf(),
            0 <= n <= self.trail_len(),
            self.has(x),
        ensures
            self.values_at(n, x).finite(),
            1 <= self.values_at(n, x).len() <= self.initial_upper(x) - self.initial_lower(x) + 1,
    {
        let values = self.values_at(n, x);
        let range = vstd::set_lib::set_int_range(
            self.initial_lower(x),
            self.initial_upper(x) + 1,
        );
        self.lemma_initial(x);
        self.lemma_bounds(0, x);
        assert forall|v: int| values.contains(v) implies range.contains(v) by {
            self.lemma_monotone(0, n, x, v);
        }
        vstd::set_lib::lemma_int_range(self.initial_lower(x), self.initial_upper(x) + 1);
        vstd::set_lib::lemma_len_subset(values, range);
        self.lemma_bounds(n, x);
        assert(values.contains(self.lower_at(n, x)));
    }

    /// A trail entry leaves its variable at least one value less, and the
    /// other variables their values.
    pub proof fn lemma_values_step(&self, i: int, x: DomainId)
        requires
            self.wf(),
            0 <= i < self.trail_len(),
            self.has(x),
        ensures
            self.values_at(i + 1, x).len() <= self.values_at(i, x).len() - if x == self.entry(
                i,
            ).predicate.domain() {
                1int
            } else {
                0int
            },
    {
        let before = self.values_at(i, x);
        let after = self.values_at(i + 1, x);
        let p = self.entry(i).predicate;
        self.lemma_step(i);
        self.lemma_values_finite(i, x);
        self.lemma_values_finite(i + 1, x);
        if x == p.domain() {
            let v = choose|v: int| #[trigger] self.contains_at(i, p.domain(), v) && !p.holds(v);
            assert(before.contains(v));
            assert forall|u: int| after.contains(u) implies before.remove(v).contains(u) by {}
            vstd::set_lib::lemma_len_subset(after, before.remove(v));
            assert(before.remove(v).len() == before.len() - 1);
        } else {
            assert(after =~= before);
        }
    }

    proof fn lemma_spare_step(&self, i: int, k: nat)
        requires
            self.wf(),
            0 <= i < self.trail_len(),
            k <= self.num_domains(),
        ensures
            0 <= self.spare_at(i + 1, k),
            self.spare_at(i + 1, k) <= self.spare_at(i, k) - if self.entry(
                i,
            ).predicate.domain().index() < k {
                1int
            } else {
                0int
            },
        decreases k,
    {
        if k > 0 {
            let x = DomainId { id: (k - 1) as u32 };
            self.lemma_spare_step(i, (k - 1) as nat);
            self.lemma_values_step(i, x);
            self.lemma_values_finite(i + 1, x);
            if self.entry(i).predicate.domain().index() == k - 1 {
                assert(self.entry(i).predicate.domain() == x);
            }
        }
    }

    proof fn lemma_spare_same(&self, other: &Assignments, n: int, k: nat)
        requires
            forall|x: DomainId, v: int| #[trigger]
                self.contains_at(n, x, v) <==> other.contains_at(n, x, v),
        ensures
            self.spare_at(n, k) == other.spare_at(n, k),
        decreases k,
    {
        if k > 0 {
            self.lemma_spare_same(other, n, (k - 1) as nat);
            let x = DomainId { id: (k - 1) as u32 };
            assert(self.values_at(n, x) =~= other.values_at(n, x));
        }
    }

    proof fn lemma_spare_along(&self, from: int, to: int)
        requires
            self.wf(),
            0 <= from <= to <= self.trail_len(),
        ensures
            self.spare_at(to, self.num_domains()) + (to - from) <= self.spare_at(
                from,
                self.num_domains(),
            ),
            to > 0 ==> 0 <= self.spare_at(to, self.num_domains()),
        decreases to - from,
    {
        if from < to {
            self.lemma_spare_along(from, to - 1);
            self.lemma_spare_step(to - 1, self.num_domains());
            self.lemma_step(to - 1);
        } else if to > 0 {
            self.lemma_spare_step(to - 1, self.num_domains());
        }
    }

    /// Each trail entry takes one of the values that the variables have to
    /// spare: a store that continues another has as much less slack as it
    /// has more entries, or less still.
    pub proof fn lemma_slack(&self, old: &Assignments)
        requires
            self.wf(),
            old.wf(),
            self.extends(old),
        ensures
            0 <= self.slack(),
            self.slack() + (self.trail_len() - old.trail_len()) <= old.slack(),
    {
        let n = old.trail_len() as int;
        self.lemma_spare_along(n, self.trail_len() as int);
        old.lemma_spare_same(self, n, old.num_domains());
        self.lemma_spare_nonnegative(self.trail_len() as int, self.num_domains());
    }

    proof fn lemma_spare_nonnegative(&self, n: int, k: nat)
        requires
            self.wf(),
            0 <= n <= self.trail_len(),
            k <= self.num_domains(),
        ensures
            0 <= self.spare_at(n, k),
        decreases k,
    {
        if k > 0 {
            self.lemma_spare_nonnegative(n, (k - 1) as nat);
            self.lemma_values_finite(n, DomainId { id: (k - 1) as u32 });
        }
    }

    /// A predicate that holds at one point of the trail and not at an
    /// earlier one became true at an entry between the two.
    pub proof fn lemma_position_between(&self, a: int, b: int, p: Predicate)
        requires
            self.wf(),
            0 <= a < b <= self.trail_len(),
            !self.satisfied_at(a, p),
            self.satisfied_at(b, p),
        ensures
            exists|i: int| a <= i < b && self.is_position_of(i, p),
        decreases b - a,
    {
        if self.satisfied_at(b - 1, p) {
            self.lemma_position_between(a, b - 1, p);
            let i = choose|i: int| a <= i < b - 1 && self.is_position_of(i, p);
            assert(a <= i < b && self.is_position_of(i, p));
        } else {
            assert(self.is_position_of(b - 1, p));
        }
    }

    /// A predicate that became true at a level survives a backtrack to that
    /// level or a higher one.
    pub proof fn lemma_restored_keeps(&self, old: &Assignments, level: int, p: Predicate)
        requires
            old.wf(),
            self.wf(),
            0 <= level <= old.level(),
            self.restored(old, level),
            old.decision_level_of(p) matches Some(l) && l <= level,
        ensures
            self.satisfies(p),
    {
        if level < old.level() {
            if old.trail_len() > 0 {
                old.lemma_level_start(0, level);
            }
        }
        let n = self.trail_len() as int;
        if old.trail_position(p) is None {
            if !old.satisfied_at(0, p) {
                old.lemma_position_between(0, old.trail_len() as int, p);
            }
            assert forall|v: int| #[trigger] self.contains_at(0, p.domain(), v) implies p.holds(
                v,
            ) by {
                assert(old.contains_at(0, p.domain(), v));
            }
            self.lemma_satisfied_stays(0, n, p);
        } else {
            let i = old.trail_position(p)->0;
            assert(old.is_position_of(i, p));
            if level < old.level() {
                old.lemma_level_start(i, level);
            }
            assert(i + 1 <= n);
            assert forall|v: int| #[trigger]
                self.contains_at(i + 1, p.domain(), v) implies p.holds(v) by {
                assert(old.contains_at(i + 1, p.domain(), v));
            }
            self.lemma_satisfied_stays(i + 1, n, p);
        }
    }

    /// A store in which each variable has one value left cannot be continued
    /// by a trail entry.
    pub proof fn lemma_fixed_is_final(&self, earlier: &Assignments)
        requires
            self.wf(),
            earlier.wf(),
            self.extends(earlier),
            forall|x: DomainId| earlier.has(x) ==> #[trigger] earlier.is_fixed(x),
        ensures
            self.trail_len() == earlier.trail_len(),
    {
        let n = earlier.trail_len() as int;
        if self.trail_len() > n {
            self.lemma_step(n);
            let p = self.entry(n).predicate;
            let x = p.domain();
            assert(earlier.is_fixed(x));
            earlier.lemma_bounds(n, x);
            self.lemma_bounds(n + 1, x);
            let v = choose|v: int| #[trigger] self.contains_at(n, x, v) && !p.holds(v);
            assert(earlier.contains_at(n, x, v));
            let w = self.lower_at(n + 1, x);
            assert(self.contains_at(n + 1, x, w));
            assert(self.contains_at(n, x, w));
            assert(earlier.contains_at(n, x, w));
        }
    }

    /// A variable that has one value left keeps that value in each store
    /// that continues the store.
    pub proof fn lemma_fixed_stays(&self, earlier: &Assignments, x: DomainId)
        requires
            self.wf(),
            earlier.wf(),
            self.extends(earlier),
            earlier.has(x),
            earlier.is_fixed(x),
        ensures
            self.is_fixed(x),
            self.lower(x) == earlier.lower(x),
            forall|v: int| #[trigger] self.contains(x, v) <==> v == earlier.lower(x),
    {
        self.lemma_bounds(self.trail_len() as int, x);
        earlier.lemma_bounds(earlier.trail_len() as int, x);
        self.lemma_extends_shrinks(earlier, x, self.lower(x));
        self.lemma_extends_shrinks(earlier, x, self.upper(x));
        assert forall|v: int| #[trigger] self.contains(x, v) implies v == earlier.lower(x) by {
            self.lemma_extends_shrinks(earlier, x, v);
        }
    }

    /// Whether `self` is `old` with conjunctions in the place of some of the
    /// reasons that were still to be expanded, and nothing else changed.
    pub open spec fn expands(&self, old: &Assignments) -> bool {
        &&& self.num_domains() == old.num_domains()
        &&& self.level() == old.level()
        &&& self.trail_len() == old.trail_len()
        &&& (forall|k: int|
            0 <= k < old.level() ==> #[trigger] self.level_start(k) == old.level_start(k))
        &&& (forall|i: int|
            0 <= i < old.trail_len() ==> {
                let new_entry = #[trigger] self.entry(i);
                let old_entry = old.entry(i);
                &&& new_entry.predicate == old_entry.predicate
                &&& new_entry.level == old_entry.level
                &&& new_entry.old_lower_bound == old_entry.old_lower_bound
                &&& new_entry.old_upper_bound == old_entry.old_upper_bound
                &&& new_entry.added_hole == old_entry.added_hole
                &&& (new_entry.reason == old_entry.reason || (old_entry.reason is Lazy
                    && new_entry.reason is Eager))
            })
        &&& (forall|n: int, x: DomainId, v: int| #[trigger]
            self.contains_at(n, x, v) <==> old.contains_at(n, x, v))
        &&& (forall|n: int, x: DomainId| #[trigger] self.lower_at(n, x) == old.lower_at(n, x))
        &&& (forall|n: int, x: DomainId| #[trigger] self.upper_at(n, x) == old.upper_at(n, x))
        &&& (forall|x: DomainId|
            old.has(x) ==> #[trigger] self.initial_lower(x) == old.initial_lower(x))
        &&& (forall|x: DomainId|
            old.has(x) ==> #[trigger] self.initial_upper(x) == old.initial_upper(x))
    }

    /// A store expands itself, and expanding is transitive.
    pub proof fn lemma_expands_transitive(&self, middle: &Assignments, old: &Assignments)
        requires
            self.expands(middle),
            middle.expands(old),
        ensures
            self.expands(old),
            old.expands(old),
    {
        assert forall|k: int| 0 <= k < old.level() implies #[trigger] self.level_start(k)
            == old.level_start(k) by {
            assert(middle.level_start(k) == old.level_start(k));
        }
        assert forall|i: int| 0 <= i < old.trail_len() implies {
            let new_entry = #[trigger] self.entry(i);
            let old_entry = old.entry(i);
            &&& new_entry.predicate == old_entry.predicate
            &&& new_entry.level == old_entry.level
            &&& new_entry.old_lower_bound == old_entry.old_lower_bound
            &&& new_entry.old_upper_bound == old_entry.old_upper_bound
            &&& new_entry.added_hole == old_entry.added_hole
            &&& (new_entry.reason == old_entry.reason || (old_entry.reason is Lazy
                && new_entry.reason is Eager))
        } by {
            let m = middle.entry(i);
        }
        assert forall|n: int, x: DomainId, v: int| #[trigger]
            self.contains_at(n, x, v) <==> old.contains_at(n, x, v) by {
            assert(middle.contains_at(n, x, v) <==> old.contains_at(n, x, v));
        }
        assert forall|n: int, x: DomainId| #[trigger] self.lower_at(n, x) == old.lower_at(n, x) by {
            assert(middle.lower_at(n, x) == old.lower_at(n, x));
        }
        assert forall|n: int, x: DomainId| #[trigger] self.upper_at(n, x) == old.upper_at(n, x) by {
            assert(middle.upper_at(n, x) == old.upper_at(n, x));
        }
        assert forall|x: DomainId| old.has(x) implies #[trigger] self.initial_lower(x)
            == old.initial_lower(x) by {
            assert(middle.initial_lower(x) == old.initial_lower(x));
        }
        assert forall|x: DomainId| old.has(x) implies #[trigger] self.initial_upper(x)
            == old.initial_upper(x) by {
            assert(middle.initial_upper(x) == old.initial_upper(x));
        }
    }

    /// Expanding reasons changes nothing of what holds, nor when it became
    /// true, and keeps the explanations that there were.
    pub proof fn lemma_expands(&self, old: &Assignments, p: Predicate)
        requires
            self.wf(),
            old.wf(),
            self.expands(old),
        ensures
            self.has(p.domain()) == old.has(p.domain()),
            forall|n: int| #[trigger] self.satisfied_at(n, p) == old.satisfied_at(n, p),
            self.satisfies(p) == old.satisfies(p),
            self.falsifies(p) == old.falsifies(p),
            forall|i: int| #[trigger] self.is_position_of(i, p) == old.is_position_of(i, p),
            self.trail_position(p) == old.trail_position(p),
            self.key_of(p) == old.key_of(p),
            self.decision_level_of(p) == old.decision_level_of(p),
            self.decided(p) == old.decided(p),
            old.explanation(p) is Some ==> self.explanation(p) == old.explanation(p),
    {
        assert forall|n: int| #[trigger] self.satisfied_at(n, p) == old.satisfied_at(n, p) by {
            if old.satisfied_at(n, p) {
                assert forall|v: int| #[trigger] self.contains_at(n, p.domain(), v) implies p.holds(
                    v,
                ) by {
                    assert(old.contains_at(n, p.domain(), v));
                }
            }
            if self.satisfied_at(n, p) {
                assert forall|v: int| #[trigger] old.contains_at(n, p.domain(), v) implies p.holds(
                    v,
                ) by {
                    assert(self.contains_at(n, p.domain(), v));
                }
            }
        }
        assert(self.falsifies(p) == old.falsifies(p)) by {
            if old.falsifies(p) {
                assert forall|v: int| #[trigger] self.contains(p.domain(), v) implies !p.holds(v) by {
                    assert(old.contains(p.domain(), v));
                }
            }
            if self.falsifies(p) {
                assert forall|v: int| #[trigger] old.contains(p.domain(), v) implies !p.holds(v) by {
                    assert(self.contains(p.domain(), v));
                }
            }
        }
        assert forall|i: int| #[trigger] self.is_position_of(i, p) == old.is_position_of(i, p) by {
            assert(self.satisfied_at(i, p) == old.satisfied_at(i, p));
            assert(self.satisfied_at(i + 1, p) == old.satisfied_at(i + 1, p));
        }
        if exists|i: int| old.is_position_of(i, p) {
            let i = choose|i: int| old.is_position_of(i, p);
            assert(self.is_position_of(i, p));
            let k = choose|k: int| self.is_position_of(k, p);
            assert(old.is_position_of(k, p));
            old.lemma_position_unique(i, k, p);
        } else {
            assert forall|i: int| !self.is_position_of(i, p) by {
                assert(!old.is_position_of(i, p));
            }
        }
    }

    /// Whether the first `n` entries of the trail satisfy `p`: it holds, and
    /// the entry that made it true, if there is one, is among them.
    pub proof fn lemma_satisfied_at(&self, n: int, p: Predicate)
        requires
            self.wf(),
            0 <= n <= self.trail_len(),
            self.has(p.domain()),
        ensures
            self.satisfied_at(n, p) <==> self.satisfies(p) && (self.trail_position(p) matches Some(
                i,
            ) ==> i < n),
    {
        let len = self.trail_len() as int;
        if self.satisfied_at(n, p) {
            self.lemma_satisfied_stays(n, len, p);
            if self.trail_position(p) is Some {
                let i = self.trail_position(p)->0;
                assert(self.is_position_of(i, p));
                if i >= n {
                    self.lemma_satisfied_stays(n, i, p);
                }
            }
        }
        if self.satisfies(p) && (self.trail_position(p) matches Some(i) ==> i < n) {
            if self.trail_position(p) is Some {
                let i = self.trail_position(p)->0;
                assert(self.is_position_of(i, p));
                self.lemma_satisfied_stays(i + 1, n, p);
            } else {
                if !self.satisfied_at(0, p) {
                    self.lemma_position_between(0, len, p);
                }
                self.lemma_satisfied_stays(0, n, p);
            }
        }
    }

    /// The length that the trail had when the current decision level was
    /// opened; zero at the root.
    pub open spec fn level_base(&self) -> int {
        if self.level() > 0 {
            self.level_start(self.level() - 1)
        } else {
            0
        }
    }

    /// Whether the current decision level holds no decision but the one
    /// that opened it.
    pub open spec fn decides_once(&self) -> bool {
        forall|i: int|
            self.level_base() < i < self.trail_len() ==> !(#[trigger] self.entry(i).reason
                is Decision)
    }

    /// Above the root, the predicates that hold and became true below the
    /// current decision level are those that the trail satisfied when the
    /// level was opened.
    pub proof fn lemma_level_base(&self, p: Predicate)
        requires
            self.wf(),
            self.level() > 0,
            self.has(p.domain()),
        ensures
            0 <= self.level_base() <= self.trail_len(),
            self.satisfied_at(self.level_base(), p) <==> (self.decision_level_of(p) matches Some(
                l,
            ) && l < self.level()),
            self.trail_position(p) matches Some(i) ==> (self.entry(i).level < self.level() <==> i
                < self.level_base()),
    {
        let base = self.level_base();
        assert(0 <= self.level_starts[self.level() - 1] <= self.trail.len());
        self.lemma_satisfied_at(base, p);
        if self.trail_position(p) is Some {
            let i = self.trail_position(p)->0;
            assert(self.is_position_of(i, p));
            self.lemma_level_start(i, self.level() - 1);
        }
    }

    /// Whether the first `position` entries of the trail satisfy
    /// `predicate`.
    pub fn is_predicate_satisfied_at(&self, position: usize, predicate: Predicate) -> (r: bool)
        requires
            self.wf(),
            position <= self.trail_len(),
            self.has(predicate.domain()),
        ensures
            r == self.satisfied_at(position as int, predicate),
    {
        proof {
            self.lemma_satisfied_at(position as int, predicate);
        }
        if !self.is_predicate_satisfied(predicate) {
            return false;
        }
        match self.get_trail_position(predicate) {
            Some(i) => i < position,
            None => true,
        }
    }

    /// Puts `explanation` in the place of the reason of the entry at
    /// `position`, where that reason is still to be expanded and the trail
    /// before the entry satisfies each predicate of `explanation`. Returns
    /// whether it did; otherwise nothing changes.
    pub fn set_explanation(&mut self, position: usize, explanation: Vec<Predicate>) -> (r: bool)
        requires
            old(self).wf(),
            position < old(self).trail_len(),
        ensures
            final(self).wf(),
            final(self).expands(old(self)),
            r == (old(self).entry(position as int).reason is Lazy && old(self).entailed_at(
                position as int,
                explanation@,
            )),
            r ==> final(self).entry(position as int).reason@ == ReasonView::Eager(explanation@),
            r ==> forall|i: int|
                0 <= i < old(self).trail_len() && i != position ==> #[trigger] final(self).entry(i)
                    == old(self).entry(i),
            !r ==> *final(self) == *old(self),
    {
        if !matches!(self.trail[position].reason, Reason::Lazy(_, _)) {
            return false;
        }
        let mut k: usize = 0;
        while k < explanation.len()
            invariant
                self.wf(),
                position < self.trail_len(),
                k <= explanation.len(),
                forall|t: int|
                    0 <= t < k ==> self.satisfied_at(position as int, #[trigger] explanation@[t]),
            decreases explanation.len() - k,
        {
            let predicate = explanation[k];
            if predicate.get_domain().id as usize >= self.domains.len()
                || !self.is_predicate_satisfied_at(position, predicate) {
                return false;
            }
            k += 1;
        }
        let ghost before = *self;
        proof {
            assert forall|t: int| 0 <= t < explanation@.len() implies {
                &&& 0 <= (#[trigger] explanation@[t]).domain().index() < self.snapshot(
                    position as int,
                ).len()
                &&& rep_satisfies(
                    self.snapshot(position as int)[explanation@[t].domain().index()],
                    explanation@[t],
                )
            } by {
                self.lemma_rep_matches_at(position as int, explanation@[t]);
            }
        }
        self.trail[position].reason = Reason::Eager(PropositionalConjunction::new(explanation));
        proof {
            assert(self.reps() =~= before.reps());
            assert forall|n: int| #[trigger] self.snapshot(n) == before.snapshot(n) by {}
            assert forall|i: int| 0 <= i < self.trail.len() implies step_ok(
                self.snapshot(i),
                #[trigger] self.trail[i],
                self.snapshot(i + 1),
            ) by {
                assert(step_ok(before.snapshot(i), before.trail[i], before.snapshot(i + 1)));
            }
            assert forall|i: int| 0 <= i < self.trail.len() implies reason_fits(
                self.snapshot(i),
                (#[trigger] self.trail[i]).level as int,
                self.trail[i].reason,
            ) by {
                if i != position {
                    assert(reason_fits(
                        before.snapshot(i),
                        before.trail[i].level as int,
                        before.trail[i].reason,
                    ));
                }
            }
            assert forall|n: int, x: int|
                0 <= n <= self.trail.len() && 0 <= x < self.domains.len() implies rep_wf(
                #[trigger] self.snapshot(n)[x],
            ) by {
                assert(rep_wf(before.snapshot(n)[x]));
            }
            assert forall|x: int| 0 <= x < self.domains.len() implies self.snapshot(0)[x] == (
            #[trigger] self.domains[x]).initial_rep() by {
                assert(before.snapshot(0)[x] == before.domains[x].initial_rep());
            }
            assert(self.store_wf());
            assert forall|i: int, j: int| 0 <= i <= j < self.trail.len() implies (
            #[trigger] self.trail[i]).level <= (#[trigger] self.trail[j]).level by {
                assert(before.trail[i].level <= before.trail[j].level);
            }
            assert forall|i: int| 0 <= i < self.trail.len() implies (#[trigger] self.trail[i]).level
                <= self.level_starts.len() by {
                assert(before.trail[i].level <= before.level_starts.len());
            }
            assert forall|i: int, k: int|
                0 <= i < self.trail.len() && 0 <= k < self.level_starts.len() implies ((
            #[trigger] self.trail[i]).level <= k <==> i < #[trigger] self.level_starts[k]) by {
                assert(before.trail[i].level <= k <==> i < before.level_starts[k]);
            }
            assert(self.levels_wf());
        }
        true
    }

    /// Whether `self` is `old` with nothing more on the trail: whatever
    /// separates the two stores, the domains are the same.
    pub open spec fn unchanged_since(&self, old: &Assignments) -> bool {
        self.extends(old) && self.trail_len() == old.trail_len()
    }

    /// Having nothing more on the trail is transitive, and holds of a store
    /// and itself.
    pub proof fn lemma_unchanged_transitive(&self, middle: &Assignments, old: &Assignments)
        requires
            self.unchanged_since(middle),
            middle.unchanged_since(old),
        ensures
            self.unchanged_since(old),
            old.unchanged_since(old),
    {
        self.lemma_extends_transitive(middle, old);
    }

    /// A store between two stores with as much on their trails has as much
    /// on its trail.
    pub proof fn lemma_unchanged_between(&self, middle: &Assignments, old: &Assignments)
        requires
            self.extends(middle),
            middle.extends(old),
            self.trail_len() == old.trail_len(),
        ensures
            self.unchanged_since(middle),
            middle.unchanged_since(old),
            self.unchanged_since(old),
    {
        self.lemma_extends_transitive(middle, old);
    }

    /// A store that has nothing more on its trail has the same domains.
    pub proof fn lemma_unchanged(&self, old: &Assignments, p: Predicate)
        requires
            self.unchanged_since(old),
        ensures
            forall|x: DomainId, v: int| #[trigger] self.contains(x, v) <==> old.contains(x, v),
            forall|x: DomainId| #[trigger] self.lower(x) == old.lower(x),
            forall|x: DomainId| #[trigger] self.upper(x) == old.upper(x),
            forall|x: DomainId| #[trigger] self.is_fixed(x) == old.is_fixed(x),
            self.satisfies(p) == old.satisfies(p),
            self.falsifies(p) == old.falsifies(p),
    {
        let n = old.trail_len() as int;
        assert forall|x: DomainId, v: int| #[trigger] self.contains(x, v) <==> old.contains(
            x,
            v,
        ) by {
            assert(self.contains_at(n, x, v) <==> old.contains_at(n, x, v));
        }
        assert forall|x: DomainId| #[trigger] self.lower(x) == old.lower(x) by {
            assert(self.lower_at(n, x) == old.lower_at(n, x));
        }
        assert forall|x: DomainId| #[trigger] self.upper(x) == old.upper(x) by {
            assert(self.upper_at(n, x) == old.upper_at(n, x));
        }
        if old.satisfies(p) {
            assert forall|v: int| #[trigger] self.contains_at(n, p.domain(), v) implies p.holds(
                v,
            ) by {
                assert(old.contains_at(n, p.domain(), v));
            }
        }
        if self.satisfies(p) {
            assert forall|v: int| #[trigger] old.contains_at(n, p.domain(), v) implies p.holds(
                v,
            ) by {
                assert(self.contains_at(n, p.domain(), v));
            }
        }
        if old.falsifies(p) {
            assert forall|v: int| #[trigger] self.contains(p.domain(), v) implies !p.holds(v) by {
                assert(old.contains(p.domain(), v));
            }
        }
        if self.falsifies(p) {
            assert forall|v: int| #[trigger] old.contains(p.domain(), v) implies !p.holds(v) by {
                assert(self.contains(p.domain(), v));
            }
        }
    }

    /// The current representation decides what the store satisfies.
    proof fn lemma_rep_matches(&self, p: Predicate)
        requires
            self.store_wf(),
            self.has(p.domain()),
        ensures
            self.satisfies(p) <==> rep_satisfies(self.reps()[p.domain().index()], p),
            self.falsifies(p) <==> rep_falsifies(self.reps()[p.domain().index()], p),
    {
        let r = self.reps()[p.domain().index()];
        assert(self.snapshot(self.trail.len() as int) == self.reps());
        assert(rep_wf(self.snapshot(self.trail.len() as int)[p.domain().index()]));
        lemma_rep_satisfies(r, p);
        if self.satisfies(p) {
            assert forall|v: int| rep_contains(r, v) implies p.holds(v) by {
                assert(self.contains(p.domain(), v));
            }
        }
        if self.falsifies(p) {
            assert forall|v: int| rep_contains(r, v) implies !p.holds(v) by {
                assert(self.contains(p.domain(), v));
            }
        }
    }
}

proof fn lemma_push_contains(s: Seq<i32>, a: i32, v: i32)
    ensures
        s.push(a).contains(v) <==> s.contains(v) || v == a,
{
    if s.contains(v) {
        let k = choose|k: int| 0 <= k < s.len() && s[k] == v;
        assert(s.push(a)[k] == v);
    }
    if v == a {
        assert(s.push(a)[s.len() as int] == v);
    }
}

} // verus!
