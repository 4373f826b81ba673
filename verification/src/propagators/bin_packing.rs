//! The bin-packing constraint: items of given sizes are placed in bins, and
//! the load of each bin is the sum of the sizes of the items in it.

use vstd::prelude::*;
use crate::assignments::{Assignments, TrailEntry};
use crate::conjunction::PropositionalConjunction;
use crate::identifiers::LocalId;
use crate::inconsistency::{Inconsistency, PropagationStatusCP};
use crate::predicate::{DomainId, Predicate};
use crate::identifiers::PropagatorVarId;
use crate::propagation::constructor_context::{registrations, PropagatorConstructorContext};
use crate::propagation::contexts::{holds_block, PropagationContextMut};
use crate::propagation::domain_events::{DomainEvents, IntDomainEvent};
use crate::propagation::propagator::Propagator;
use crate::reason::ReasonView;
use crate::propagators::nosum::{
    first_gap_sums, lemma_prefix_monotone, non_increasing, non_negative, nosum, prefix_sum,
    prunes, subset_sum, total_size,
};
use crate::propagators::packing::{
    admits, all_fixed, assigned_values, bin_sum, candidate_sum, chosen_candidate_sum,
    chosen_mask, fixed_to, is_packing, lemma_all_fixed_sums, lemma_bin_sum_split, lemma_candidate_list,
    lemma_chosen_item, lemma_chosen_removed, lemma_load_is_rest, lemma_required_grows,
    lemma_required_list, lemma_required_same,
    lemma_sums_same, may_take, other_loads_sum, required_sum,
};

verus! {

/// The least number of variables that a store must have to hold all of
/// `ids`.
pub open spec fn scope_of(ids: Seq<DomainId>) -> nat
    decreases ids.len(),
{
    if ids.len() == 0 {
        0
    } else {
        let rest = scope_of(ids.drop_last());
        if rest > ids.last().index() {
            rest
        } else {
            (ids.last().index() + 1) as nat
        }
    }
}

pub proof fn lemma_scope_of(ids: Seq<DomainId>, i: int)
    requires
        0 <= i < ids.len(),
    ensures
        ids[i].index() < scope_of(ids),
    decreases ids.len(),
{
    if i < ids.len() - 1 {
        lemma_scope_of(ids.drop_last(), i);
    }
}

/// The items as pairs of bin variable and size.
pub open spec fn items_of(bins: Seq<DomainId>, sizes: Seq<i32>) -> Seq<(DomainId, i32)> {
    Seq::new(bins.len(), |i: int| (bins[i], sizes[i]))
}

/// The sum of the sizes at the first `t` of the positions `picked`.
pub open spec fn picked_sum(sizes: Seq<i32>, picked: Seq<usize>, t: int) -> int
    decreases t,
{
    if t <= 0 {
        0
    } else {
        picked_sum(sizes, picked, t - 1) + sizes[picked[t - 1] as int]
    }
}

/// The sizes at the positions `picked`.
pub open spec fn picked_sizes(sizes: Seq<i32>, picked: Seq<usize>) -> Seq<i32> {
    Seq::new(picked.len(), |t: int| sizes[picked[t] as int])
}

/// Whether `picked` holds positions below `n` in increasing order.
pub open spec fn increasing_below(picked: Seq<usize>, n: int) -> bool {
    &&& (forall|t: int| 0 <= t < picked.len() ==> (#[trigger] picked[t]) < n)
    &&& (forall|t: int, u: int| 0 <= t < u < picked.len() ==> picked[t] < picked[u])
}

/// Sizes picked in increasing order of position from a non-increasing list
/// are non-increasing, and sum to no more than the part of the list that
/// they are picked from.
proof fn lemma_picked(sizes: Seq<i32>, picked: Seq<usize>, n: int)
    requires
        non_increasing(sizes),
        non_negative(sizes),
        0 <= n <= sizes.len(),
        increasing_below(picked, n),
    ensures
        non_increasing(picked_sizes(sizes, picked)),
        non_negative(picked_sizes(sizes, picked)),
        total_size(picked_sizes(sizes, picked)) == picked_sum(sizes, picked, picked.len() as int),
        0 <= picked_sum(sizes, picked, picked.len() as int) <= prefix_sum(sizes, n),
{
    let ss = picked_sizes(sizes, picked);
    assert forall|i: int, j: int| 0 <= i <= j < ss.len() implies ss[i] >= ss[j] by {
        if i < j {
            assert(picked[i] < picked[j]);
        }
    }
    lemma_picked_prefix(sizes, picked, picked.len() as int);
    lemma_picked_bound(sizes, picked, picked.len() as int, n);
}

proof fn lemma_picked_prefix(sizes: Seq<i32>, picked: Seq<usize>, t: int)
    requires
        0 <= t <= picked.len(),
    ensures
        prefix_sum(picked_sizes(sizes, picked), t) == picked_sum(sizes, picked, t),
    decreases t,
{
    if t > 0 {
        lemma_picked_prefix(sizes, picked, t - 1);
    }
}

proof fn lemma_picked_bound(sizes: Seq<i32>, picked: Seq<usize>, t: int, n: int)
    requires
        non_negative(sizes),
        0 <= n <= sizes.len(),
        0 <= t <= picked.len(),
        increasing_below(picked, n),
    ensures
        0 <= picked_sum(sizes, picked, t),
        t > 0 ==> picked_sum(sizes, picked, t) <= prefix_sum(sizes, picked[t - 1] + 1),
        picked_sum(sizes, picked, t) <= prefix_sum(sizes, n),
    decreases t,
{
    if t > 0 {
        lemma_picked_bound(sizes, picked, t - 1, n);
        let last = picked[t - 1] as int;
        if t > 1 {
            assert(picked[t - 2] < picked[t - 1]);
            lemma_prefix_monotone(sizes, picked[t - 2] + 1, last);
        } else {
            lemma_prefix_monotone(sizes, 0, last);
        }
        lemma_prefix_monotone(sizes, last + 1, n);
    } else {
        lemma_prefix_monotone(sizes, 0, n);
    }
}

/// What the propagator has gathered about one bin: the items that are
/// fixed to it, those that may still go to it, the sums of their sizes, and
/// the predicates that describe the two sets.
struct BinView {
    /// The items that are fixed to the bin.
    required: Vec<usize>,
    /// The items that may go to the bin and are not fixed, in increasing
    /// order.
    candidates: Vec<usize>,
    /// `[b == j]` for each required item `b`.
    required_reason: Vec<Predicate>,
    /// `[b != j]` for each item that cannot go to the bin, and `[b == j]`
    /// for each required item: the description of the candidate set.
    candidate_reason: Vec<Predicate>,
    /// The sum of the sizes of the required items.
    packed_sum: i32,
    /// The sum of the sizes of the candidates.
    candidate_sum: i32,
}

/// Propagator for the bin-packing constraint over load variables, one for
/// each bin, and bin variables, one for each item, where the item `i` has
/// the size `sizes[i]` and the value of its variable is the index of its
/// bin. The items are kept in non-increasing order of size.
pub struct BinPackingPropagator {
    /// Load of each bin
    loads: Vec<DomainId>,
    /// Bin allocation for each item
    bins: Vec<DomainId>,
    /// Size of each item
    sizes: Vec<i32>,
}

fn clamp(value: i64) -> (r: i32)
    ensures
        r == if value < i32::MIN {
            i32::MIN as int
        } else if value > i32::MAX {
            i32::MAX as int
        } else {
            value as int
        },
{
    if value < i32::MIN as i64 {
        i32::MIN
    } else if value > i32::MAX as i64 {
        i32::MAX
    } else {
        value as i32
    }
}

fn copy_of(predicates: &Vec<Predicate>) -> (r: Vec<Predicate>)
    ensures
        r@ == predicates@,
{
    let mut out: Vec<Predicate> = Vec::new();
    let mut i: usize = 0;
    while i < predicates.len()
        invariant
            i <= predicates.len(),
            out@ == predicates@.take(i as int),
        decreases predicates.len() - i,
    {
        out.push(predicates[i]);
        proof {
            assert(predicates@.take(i + 1) =~= predicates@.take(i as int).push(
                predicates@[i as int],
            ));
        }
        i += 1;
    }
    proof {
        assert(predicates@.take(i as int) =~= predicates@);
    }
    out
}

/// The trail entry of a change that was not there before is of the kind of
/// the predicate that was posted, speaks of its variable, and records a
/// bound from before the change that the predicate has improved on.
proof fn lemma_new_entry(before: &Assignments, after: &Assignments, p: Predicate, reason: ReasonView)
    requires
        before.wf(),
        after.wf(),
        before.has(p.domain()),
        after.posted(before, p, reason),
        !before.satisfies(p),
    ensures
        after.trail_len() == before.trail_len() + 1,
        after.entry(before.trail_len() as int).predicate.domain() == p.domain(),
        p is LowerBound ==> after.entry(before.trail_len() as int).predicate is LowerBound
            && after.entry(before.trail_len() as int).old_lower_bound == before.lower(p.domain())
            && before.lower(p.domain()) < p.constant(),
        p is UpperBound ==> after.entry(before.trail_len() as int).predicate is UpperBound
            && after.entry(before.trail_len() as int).old_upper_bound == before.upper(p.domain())
            && before.upper(p.domain()) > p.constant(),
        p is NotEqual || p is Equal ==> after.entry(before.trail_len() as int).predicate == p,
{
    let n = before.trail_len() as int;
    let x = p.domain();
    after.lemma_step(n);
    before.lemma_bounds(n, x);
    assert(after.lower_at(n, x) == before.lower_at(n, x));
    assert(after.upper_at(n, x) == before.upper_at(n, x));
    if p is LowerBound && before.lower(x) >= p.constant() {
        assert forall|v: int| #[trigger] before.contains_at(n, x, v) implies p.holds(v) by {}
    }
    if p is UpperBound && before.upper(x) <= p.constant() {
        assert forall|v: int| #[trigger] before.contains_at(n, x, v) implies p.holds(v) by {}
    }
}

/// A store that satisfies the predicates of `c` and the predicate `p`
/// satisfies those of `c` with `p` appended.
proof fn lemma_entails_push(store: &Assignments, c: Seq<Predicate>, p: Predicate)
    requires
        store.entails(c),
        store.satisfies(p),
    ensures
        store.entails(c.push(p)),
{
    assert forall|k: int| 0 <= k < c.push(p).len() implies store.satisfies(
        #[trigger] c.push(p)[k],
    ) by {
        if k < c.len() {
            assert(c.push(p)[k] == c[k]);
        }
    }
}

/// The store satisfies the predicates that state its current bounds and
/// the absence of the values that it lacks.
proof fn lemma_current_facts(store: &Assignments, x: DomainId, v: int)
    requires
        store.wf(),
        store.has(x),
        i32::MIN <= v <= i32::MAX,
    ensures
        store.satisfies(Predicate::LowerBound { domain_id: x, lower_bound: store.lower(x) as i32 }),
        store.satisfies(Predicate::UpperBound { domain_id: x, upper_bound: store.upper(x) as i32 }),
        !store.contains(x, v) ==> store.satisfies(
            Predicate::NotEqual { domain_id: x, not_equal_constant: v as i32 },
        ),
        store.is_fixed(x) && store.contains(x, v) ==> store.satisfies(
            Predicate::Equal { domain_id: x, equality_constant: v as i32 },
        ),
{
    store.lemma_bounds(store.trail_len() as int, x);
}

/// With the NoSum test on an interval given in wide integers: the test of
/// [`nosum`] on that interval.
fn nosum_between(sizes: &[i32], alpha: i64, beta: i64) -> (r: (bool, i64, i64))
    requires
        non_increasing(sizes@),
        non_negative(sizes@),
        total_size(sizes@) <= i32::MAX,
        alpha <= beta,
    ensures
        r.0 == prunes(sizes@, alpha as int, beta as int),
        r.0 ==> r.1 < alpha && beta < r.2,
        r.0 ==> 0 <= r.1 && r.2 <= total_size(sizes@),
        r.0 ==> forall|chosen: Seq<bool>|
            chosen.len() == sizes@.len() ==> {
                let sum = #[trigger] subset_sum(sizes@, chosen);
                sum <= r.1 || sum >= r.2
            },
        r.0 ==> first_gap_sums(sizes@, alpha as int, beta as int, r.1 as int, r.2 as int),
{
    if alpha <= 0 || beta >= i32::MAX as i64 {
        return (false, 0, 0);
    }
    let (pruned, below, above) = nosum(sizes, alpha as i32, beta as i32);
    proof {
        if pruned {
            reveal(first_gap_sums);
            let all = Seq::new(sizes@.len(), |i: int| true);
            let none = Seq::new(sizes@.len(), |i: int| false);
            lemma_all_chosen(sizes@, all, sizes@.len() as int);
            lemma_none_chosen(sizes@, none, sizes@.len() as int);
            assert(subset_sum(sizes@, all) == total_size(sizes@));
            assert(subset_sum(sizes@, none) == 0);
        }
    }
    (pruned, below as i64, above as i64)
}

proof fn lemma_all_chosen(sizes: Seq<i32>, chosen: Seq<bool>, n: int)
    requires
        0 <= n <= sizes.len(),
        chosen.len() == sizes.len(),
        forall|i: int| 0 <= i < chosen.len() ==> chosen[i],
    ensures
        crate::propagators::nosum::chosen_sum(sizes, chosen, n) == prefix_sum(sizes, n),
    decreases n,
{
    if n > 0 {
        lemma_all_chosen(sizes, chosen, n - 1);
    }
}

proof fn lemma_none_chosen(sizes: Seq<i32>, chosen: Seq<bool>, n: int)
    requires
        0 <= n <= sizes.len(),
        chosen.len() == sizes.len(),
        forall|i: int| 0 <= i < chosen.len() ==> !chosen[i],
    ensures
        crate::propagators::nosum::chosen_sum(sizes, chosen, n) == 0,
    decreases n,
{
    if n > 0 {
        lemma_none_chosen(sizes, chosen, n - 1);
    }
}

impl BinPackingPropagator {
    /// The load variable of each bin.
    pub closed spec fn loads(&self) -> Seq<DomainId> {
        self.loads@
    }

    /// The bin variable of each item, in non-increasing order of size.
    pub closed spec fn bins(&self) -> Seq<DomainId> {
        self.bins@
    }

    /// The size of each item, in non-increasing order.
    pub closed spec fn sizes(&self) -> Seq<i32> {
        self.sizes@
    }

    /// There is a size for each item, the sizes are non-negative and in
    /// non-increasing order, their sum and the number of bins are machine
    /// integers, and there is a local id for each variable.
    #[verifier::type_invariant]
    pub closed spec fn valid(&self) -> bool {
        &&& self.bins@.len() == self.sizes@.len()
        &&& non_negative(self.sizes@)
        &&& non_increasing(self.sizes@)
        &&& total_size(self.sizes@) <= i32::MAX
        &&& self.loads@.len() <= i32::MAX
        &&& self.loads@.len() + self.bins@.len() <= u32::MAX
    }

    /// Whether `store`, which has fixed the items, puts each of them in one
    /// of the bins.
    pub fn items_are_placed(&self, store: &Assignments) -> (r: bool)
        requires
            store.wf(),
            self.scope() <= store.num_domains(),
            all_fixed(store, self.bins()),
        ensures
            r == forall|i: int|
                0 <= i < self.bins().len() ==> 0 <= store.lower(#[trigger] self.bins()[i])
                    < self.loads().len(),
    {
        proof {
            use_type_invariant(self);
            self.lemma_within_scope(store.num_domains());
        }
        let mut i: usize = 0;
        while i < self.bins.len()
            invariant
                store.wf(),
                self.within_scope(store.num_domains()),
                self.loads@.len() <= i32::MAX,
                i <= self.bins.len(),
                forall|k: int|
                    0 <= k < i ==> 0 <= store.lower(#[trigger] self.bins()[k])
                        < self.loads().len(),
            decreases self.bins.len() - i,
        {
            assert(self.bins()[i as int].index() < store.num_domains());
            let value = store.get_lower_bound(self.bins[i]);
            if value < 0 || value as i64 >= self.loads.len() as i64 {
                assert(!(0 <= store.lower(self.bins()[i as int]) < self.loads().len()));
                return false;
            }
            i += 1;
        }
        true
    }

    /// Whether a store with `num_domains` variables has all the variables of
    /// the propagator.
    pub open spec fn within_scope(&self, num_domains: nat) -> bool {
        &&& (forall|j: int|
            0 <= j < self.loads().len() ==> (#[trigger] self.loads()[j]).index() < num_domains)
        &&& (forall|i: int|
            0 <= i < self.bins().len() ==> (#[trigger] self.bins()[i]).index() < num_domains)
    }

    /// Whether `values` is a solution of the constraint within the domains
    /// of `store`: a packing that gives each load and each item a value of
    /// its domain, and each other variable of the store one of its own.
    pub open spec fn is_solution(&self, store: &Assignments, values: spec_fn(DomainId) -> int) -> bool {
        &&& is_packing(self.loads(), self.bins(), self.sizes(), values)
        &&& admits(store, self.loads(), values)
        &&& admits(store, self.bins(), values)
        &&& store.allows(values)
    }

    /// Whether each solution within `before` is a solution within `after`.
    pub open spec fn keeps_solutions(&self, before: &Assignments, after: &Assignments) -> bool {
        forall|values: spec_fn(DomainId) -> int| #[trigger]
            self.is_solution(before, values) ==> self.is_solution(after, values)
    }

    /// Whether the constraint has no solution within the domains of `store`.
    pub open spec fn has_no_solution(&self, store: &Assignments) -> bool {
        forall|values: spec_fn(DomainId) -> int| !#[trigger] self.is_solution(store, values)
    }

    /// Whether each solution within `store` meets `p`.
    pub open spec fn sound(&self, store: &Assignments, p: Predicate) -> bool {
        forall|values: spec_fn(DomainId) -> int| #[trigger]
            self.is_solution(store, values) ==> p.holds(values(p.domain()))
    }

    /// Whether the load of each bin lies between the sum of the sizes of the
    /// items that `store` fixes to the bin and that sum with the sizes of
    /// the items that `store` leaves free to go to the bin.
    pub open spec fn loads_maintained(&self, store: &Assignments) -> bool {
        forall|j: int, v: int|
            0 <= j < self.loads().len() && #[trigger] store.contains(self.loads()[j], v)
                ==> required_sum(store, self.bins(), self.sizes(), j, self.bins().len() as int)
                <= v <= required_sum(store, self.bins(), self.sizes(), j, self.bins().len() as int)
                + candidate_sum(store, self.bins(), self.sizes(), j, self.bins().len() as int)
    }

    /// Whether `words` is the reason that one of the rules gives for the
    /// trail entry `entry` on account of bin `j`, with the items as `view`
    /// has them and the bounds of the load as `bounds` has them, in a
    /// propagation that began with `origin`.
    ///
    /// A raised lower bound of the load has the items that are fixed to the
    /// bin as its reason, where it was below their sizes (lower load); the
    /// upper bounds of the other loads, where it was below what they leave
    /// of all the sizes (coherence); or the description of what may go to
    /// the bin with the lower bound, where the test on the candidates
    /// prunes on that bound, which is the bound that the entry has
    /// replaced, and which is coherent with the bounds that the other loads
    /// had in `origin`: the coherence rule comes first. A lowered upper
    /// bound has the description,
    /// the lower bounds of the other loads, or the description with the
    /// upper bound, in the same way. An item from which the bin is taken has
    /// the items that are fixed to the bin with the upper bound of the load
    /// as the reason, where the item is too large for what is left
    /// (elimination). An item that is fixed to the bin has the description
    /// with the lower bound that the load had in `view`, where the bin does
    /// not reach the lower bound of its load without the item
    /// (commitment). An item from which the bin is taken, or which is fixed
    /// to the bin, has the description with both bounds (the test on the
    /// other candidates).
    pub open spec fn is_rule_reason(
        &self,
        words: Seq<Predicate>,
        origin: &Assignments,
        view: &Assignments,
        bounds: &Assignments,
        j: int,
        entry: TrailEntry,
    ) -> bool {
        let x = entry.predicate.domain();
        let load = self.loads()[j];
        let m = self.loads().len() as int;
        let n = self.bins().len() as int;
        let total = total_size(self.sizes());
        let packed = required_sum(view, self.bins(), self.sizes(), j, n);
        let open = candidate_sum(view, self.bins(), self.sizes(), j, n);
        let sizes = self.candidate_sizes_of(view, j);
        let required = required_words(view, self.bins(), j, n);
        let description = candidate_words(view, self.bins(), j);
        let lower = Predicate::LowerBound { domain_id: load, lower_bound: bounds.lower(load) as i32 };
        let upper = Predicate::UpperBound { domain_id: load, upper_bound: bounds.upper(load) as i32 };
        ||| x == load && entry.predicate is LowerBound && {
            ||| words == required && entry.old_lower_bound < packed
            ||| words == other_bounds_words(view, self.loads(), j, true, m)
                && entry.old_lower_bound < total - other_bounds_sum(view, self.loads(), j, true, m)
            ||| words == description.push(lower) && prunes(
                sizes,
                bounds.lower(load) - packed,
                bounds.lower(load) - packed,
            ) && entry.old_lower_bound == bounds.lower(load) && self.coherent_with(
                origin,
                bounds,
                j,
            )
        }
        ||| x == load && entry.predicate is UpperBound && {
            ||| words == description && entry.old_upper_bound > packed + open
            ||| words == other_bounds_words(view, self.loads(), j, false, m)
                && entry.old_upper_bound > total - other_bounds_sum(
                view,
                self.loads(),
                j,
                false,
                m,
            )
            ||| words == description.push(upper) && prunes(
                sizes,
                bounds.upper(load) - packed,
                bounds.upper(load) - packed,
            ) && entry.old_upper_bound == bounds.upper(load) && self.coherent_with(
                origin,
                bounds,
                j,
            )
        }
        ||| words == required.push(upper) && entry.predicate == (Predicate::NotEqual {
            domain_id: x,
            not_equal_constant: j as i32,
        }) && (exists|i: int|
            0 <= i < n && #[trigger] self.bins()[i] == x && self.sizes()[i] > bounds.upper(load)
                - packed)
        ||| words == description.push(
            Predicate::LowerBound { domain_id: load, lower_bound: view.lower(load) as i32 },
        ) && entry.predicate == (Predicate::Equal { domain_id: x, equality_constant: j as i32 })
            && (exists|i: int|
            0 <= i < n && #[trigger] self.bins()[i] == x && packed + open - self.sizes()[i]
                < bounds.lower(load))
        ||| words == description.push(lower).push(upper) && self.bins().contains(x) && (
        entry.predicate == (Predicate::NotEqual { domain_id: x, not_equal_constant: j as i32 })
            || entry.predicate == (Predicate::Equal { domain_id: x, equality_constant: j as i32 }))
    }

    /// Whether the trail entry `i` of `after` has the reason of a rule,
    /// applied in a store between `origin` and `after`, followed by
    /// `reification`.
    pub open spec fn explained_entry(
        &self,
        origin: &Assignments,
        after: &Assignments,
        i: int,
        reification: Seq<Predicate>,
    ) -> bool {
        exists|view: Assignments, bounds: Assignments, j: int, words: Seq<Predicate>|
            {
                &&& #[trigger] self.is_rule_reason(words, origin, &view, &bounds, j, after.entry(i))
                &&& 0 <= j < self.loads().len()
                &&& bounds.wf()
                &&& view.extends(origin)
                &&& bounds.extends(&view)
                &&& after.extends(&bounds)
                &&& after.entry(i).reason@ == ReasonView::Eager(words + reification)
            }
    }

    /// Whether each trail entry of `after` from position `from` on has the
    /// reason of a rule, applied in a store between `origin` and `after`.
    pub open spec fn all_explained(
        &self,
        origin: &Assignments,
        from: int,
        after: &Assignments,
        reification: Seq<Predicate>,
    ) -> bool {
        forall|i: int|
            from <= i < after.trail_len() ==> #[trigger] self.explained_entry(
                origin,
                after,
                i,
                reification,
            )
    }

    /// An entry that has the reason of a rule has it in each store that
    /// continues the store, and with respect to each earlier origin.
    pub proof fn lemma_explained_entry_later(
        &self,
        first: &Assignments,
        origin: &Assignments,
        before: &Assignments,
        after: &Assignments,
        i: int,
        reification: Seq<Predicate>,
    )
        requires
            first.wf(),
            origin.wf(),
            self.within_scope(first.num_domains()),
            origin.extends(first),
            after.extends(before),
            0 <= i < before.trail_len(),
            self.explained_entry(origin, before, i, reification),
        ensures
            self.explained_entry(first, after, i, reification),
    {
        let (view, bounds, j, words) = choose|
            view: Assignments,
            bounds: Assignments,
            j: int,
            words: Seq<Predicate>,
        |
            {
                &&& #[trigger] self.is_rule_reason(words, origin, &view, &bounds, j, before.entry(i))
                &&& 0 <= j < self.loads().len()
                &&& bounds.wf()
                &&& view.extends(origin)
                &&& bounds.extends(&view)
                &&& before.extends(&bounds)
                &&& before.entry(i).reason@ == ReasonView::Eager(words + reification)
            };
        view.lemma_extends_transitive(origin, first);
        after.lemma_extends_transitive(before, &bounds);
        assert(after.entry(i) == before.entry(i));
        if self.coherent_with(origin, &bounds, j) {
            bounds.lemma_extends_reflexive();
            self.lemma_coherent_with(first, origin, &bounds, &bounds, j);
        }
        assert(self.is_rule_reason(words, first, &view, &bounds, j, after.entry(i)));
    }

    /// What has the reason of a rule has it in each store that continues
    /// the store, and with respect to each earlier origin.
    pub proof fn lemma_explained_later(
        &self,
        first: &Assignments,
        origin: &Assignments,
        before: &Assignments,
        after: &Assignments,
        from: int,
        reification: Seq<Predicate>,
    )
        requires
            first.wf(),
            origin.wf(),
            self.within_scope(first.num_domains()),
            origin.extends(first),
            after.extends(before),
            0 <= from,
            self.all_explained(origin, from, before, reification),
        ensures
            forall|i: int|
                from <= i < before.trail_len() ==> #[trigger] self.explained_entry(
                    first,
                    after,
                    i,
                    reification,
                ),
    {
        assert forall|i: int| from <= i < before.trail_len() implies #[trigger] self.explained_entry(
            first,
            after,
            i,
            reification,
        ) by {
            self.lemma_explained_entry_later(first, origin, before, after, i, reification);
        }
    }

    /// Entries that have the reason of a rule, and later entries that have
    /// one with respect to a later origin, all have the reason of a rule.
    pub proof fn lemma_explained_chain(
        &self,
        first: &Assignments,
        origin: &Assignments,
        middle: &Assignments,
        after: &Assignments,
        from: int,
        reification: Seq<Predicate>,
    )
        requires
            first.wf(),
            origin.wf(),
            self.within_scope(first.num_domains()),
            0 <= from <= middle.trail_len(),
            origin.extends(first),
            after.extends(middle),
            self.all_explained(first, from, middle, reification),
            self.all_explained(origin, middle.trail_len() as int, after, reification),
        ensures
            self.all_explained(first, from, after, reification),
    {
        first.lemma_extends_reflexive();
        after.lemma_extends_reflexive();
        assert forall|i: int| from <= i < after.trail_len() implies #[trigger] self.explained_entry(
            first,
            after,
            i,
            reification,
        ) by {
            if i < middle.trail_len() {
                self.lemma_explained_entry_later(first, first, middle, after, i, reification);
            } else {
                self.lemma_explained_entry_later(first, origin, after, after, i, reification);
            }
        }
    }

    /// After a change for the reason of a rule, each entry that had the
    /// reason of a rule still has it, and so has the new entry.
    pub proof fn lemma_posted_explained(
        &self,
        origin: &Assignments,
        from: int,
        view: &Assignments,
        bounds: &Assignments,
        before: &PropagationContextMut,
        after: &PropagationContextMut,
        j: int,
        predicate: Predicate,
        words: Seq<Predicate>,
        result: PropagationStatusCP,
    )
        requires
            origin.wf(),
            bounds.wf(),
            self.within_scope(origin.num_domains()),
            0 <= from,
            0 <= j < self.loads().len(),
            view.extends(origin),
            bounds.extends(view),
            before.store().extends(bounds),
            result is Ok && !before.store().satisfies(predicate) ==> self.is_rule_reason(
                words,
                origin,
                view,
                bounds,
                j,
                after.store().entry(before.store().trail_len() as int),
            ),
            after.changed(before, predicate, words, result),
            self.all_explained(origin, from, before.store(), before.reification_predicates()),
        ensures
            self.all_explained(origin, from, after.store(), before.reification_predicates()),
            after.reification_predicates() == before.reification_predicates(),
    {
        let reification = before.reification_predicates();
        self.lemma_explained_later(origin, origin, before.store(), after.store(), from, reification);
        after.store().lemma_extends_transitive(before.store(), bounds);
        assert forall|i: int| from <= i < after.store().trail_len() implies #[trigger] self.explained_entry(
            origin,
            after.store(),
            i,
            reification,
        ) by {
            if i >= before.store().trail_len() {
                assert(i == before.store().trail_len());
                assert(!before.store().satisfies(predicate));
                assert(self.is_rule_reason(words, origin, view, bounds, j, after.store().entry(i)));
            }
        }
    }

    /// Entries that have the reason of a rule, followed by the predicates
    /// of the reification literals, hold those predicates.
    pub proof fn lemma_explained_carries(
        &self,
        before: &PropagationContextMut,
        after: &PropagationContextMut,
    )
        requires
            self.all_explained(
                before.store(),
                before.store().trail_len() as int,
                after.store(),
                before.reification_predicates(),
            ),
        ensures
            after.carries(before),
    {
        let block = before.reification_predicates();
        assert forall|i: int|
            before.store().trail_len() <= i < after.store().trail_len() && (
            #[trigger] after.store().entry(i)).reason@ is Eager implies holds_block(
            after.store().entry(i).reason@->Eager_0,
            block,
        ) by {
            assert(self.explained_entry(before.store(), after.store(), i, block));
            let (view, bounds, j, words) = choose|
                view: Assignments,
                bounds: Assignments,
                j: int,
                words: Seq<Predicate>,
            |
                {
                    &&& #[trigger] self.is_rule_reason(
                        words,
                        before.store(),
                        &view,
                        &bounds,
                        j,
                        after.store().entry(i),
                    )
                    &&& 0 <= j < self.loads().len()
                    &&& bounds.wf()
                    &&& view.extends(before.store())
                    &&& bounds.extends(&view)
                    &&& after.store().extends(&bounds)
                    &&& after.store().entry(i).reason@ == ReasonView::Eager(words + block)
                };
            assert((words + block).subrange(words.len() as int, (words.len() + block.len()) as int)
                =~= block);
        }
    }

    /// Whether the load of bin `j` is coherent with the loads of the other
    /// bins: it leaves the other bins no less than their lower bounds of
    /// the sum of all sizes, and no more than their upper bounds.
    pub open spec fn coherent(&self, store: &Assignments, j: int) -> bool {
        forall|v: int| #[trigger]
            store.contains(self.loads()[j], v) ==> total_size(self.sizes()) - other_bounds_sum(
                store,
                self.loads(),
                j,
                true,
                self.loads().len() as int,
            ) <= v <= total_size(self.sizes()) - other_bounds_sum(
                store,
                self.loads(),
                j,
                false,
                self.loads().len() as int,
            )
    }

    /// Whether `after` leaves the load of bin `j` only values that are
    /// coherent with the bounds that `before` has for the loads of the
    /// other bins.
    pub open spec fn coherent_with(&self, before: &Assignments, after: &Assignments, j: int) -> bool {
        forall|v: int| #[trigger]
            after.contains(self.loads()[j], v) ==> total_size(self.sizes()) - other_bounds_sum(
                before,
                self.loads(),
                j,
                true,
                self.loads().len() as int,
            ) <= v <= total_size(self.sizes()) - other_bounds_sum(
                before,
                self.loads(),
                j,
                false,
                self.loads().len() as int,
            )
    }

    /// What is coherent with the bounds of a store is coherent with the
    /// bounds of each earlier store, and stays so in each later store.
    pub proof fn lemma_coherent_with(
        &self,
        first: &Assignments,
        before: &Assignments,
        after: &Assignments,
        last: &Assignments,
        j: int,
    )
        requires
            first.wf(),
            before.wf(),
            last.wf(),
            before.extends(first),
            last.extends(after),
            self.within_scope(first.num_domains()),
            0 <= j < self.loads().len(),
            self.coherent_with(before, after, j),
        ensures
            self.coherent_with(first, last, j),
    {
        lemma_other_bounds_monotone(first, before, self.loads(), j, self.loads().len() as int);
        assert forall|v: int| #[trigger] last.contains(self.loads()[j], v) implies total_size(
            self.sizes(),
        ) - other_bounds_sum(first, self.loads(), j, true, self.loads().len() as int) <= v
            <= total_size(self.sizes()) - other_bounds_sum(
            first,
            self.loads(),
            j,
            false,
            self.loads().len() as int,
        ) by {
            last.lemma_extends_shrinks(after, self.loads()[j], v);
        }
    }

    /// Whether `after` has taken bin `j` from each item that was free to go
    /// to it in `before` and is larger than the space that the upper bound
    /// of the load left in `before` above the items that were fixed to the
    /// bin.
    pub open spec fn eliminated_from(
        &self,
        before: &Assignments,
        after: &Assignments,
        j: int,
    ) -> bool {
        forall|i: int|
            0 <= i < self.bins().len() && may_take(before, #[trigger] self.bins()[i], j)
                && self.sizes()[i] > before.upper(self.loads()[j]) - required_sum(
                before,
                self.bins(),
                self.sizes(),
                j,
                self.bins().len() as int,
            ) ==> !after.contains(self.bins()[i], j)
    }

    /// What was taken from the items on account of a bin stays taken, and
    /// what a run on a later store takes on account of a bin is what was to
    /// be taken in the earlier store, where the load of the bin has kept a
    /// value at or above what the later store requires of the bin.
    pub proof fn lemma_eliminated_later(
        &self,
        first: &Assignments,
        before: &Assignments,
        after: &Assignments,
        k: int,
        j: int,
    )
        requires
            first.wf(),
            before.wf(),
            after.wf(),
            before.extends(first),
            after.extends(before),
            self.within_scope(first.num_domains()),
            self.bins().len() == self.sizes().len(),
            non_negative(self.sizes()),
            0 <= k <= j < self.loads().len(),
            k < j ==> self.eliminated_from(first, before, k),
            k == j ==> self.eliminated_from(before, after, j),
            k == j ==> forall|v: int| #[trigger]
                after.contains(self.loads()[j], v) ==> v >= required_sum(
                    before,
                    self.bins(),
                    self.sizes(),
                    j,
                    self.bins().len() as int,
                ),
        ensures
            self.eliminated_from(first, after, k),
    {
        let n = self.bins().len() as int;
        let load = self.loads()[k];
        assert forall|i: int|
            0 <= i < n && may_take(first, #[trigger] self.bins()[i], k) && self.sizes()[i]
                > first.upper(load) - required_sum(
                first,
                self.bins(),
                self.sizes(),
                k,
                n,
            ) implies !after.contains(self.bins()[i], k) by {
            let bin = self.bins()[i];
            if after.contains(bin, k) {
                after.lemma_extends_shrinks(before, bin, k);
                if k == j {
                    lemma_required_grows(first, before, self.bins(), self.sizes(), k, n, i);
                    first.lemma_bounds(first.trail_len() as int, load);
                    before.lemma_bounds(before.trail_len() as int, load);
                    after.lemma_bounds(after.trail_len() as int, load);
                    before.lemma_extends_shrinks(first, load, before.upper(load));
                    after.lemma_extends_shrinks(before, load, after.lower(load));
                    before.lemma_extends_shrinks(first, bin, k);
                    if before.is_fixed(bin) {
                        // The item was fixed to the bin in between: the bin holds too
                        // much for its load.
                        assert(fixed_to(before, bin, k));
                        assert(after.contains(load, after.lower(load)));
                    } else {
                        assert(may_take(before, bin, k));
                    }
                }
            }
        }
    }

    /// Whether each item that is free to go to bin `j` fits in the space
    /// that the upper bound of the load leaves above the items that are
    /// fixed to the bin.
    pub open spec fn fits_all(&self, store: &Assignments, j: int) -> bool {
        forall|i: int|
            0 <= i < self.bins().len() && may_take(store, #[trigger] self.bins()[i], j)
                ==> self.sizes()[i] <= store.upper(self.loads()[j]) - required_sum(
                store,
                self.bins(),
                self.sizes(),
                j,
                self.bins().len() as int,
            )
    }

    /// Whether the items that may go to bin `j` reach the lower bound of
    /// its load without any one of those that are free to go elsewhere.
    pub open spec fn needs_none(&self, store: &Assignments, j: int) -> bool {
        forall|i: int|
            0 <= i < self.bins().len() && may_take(store, #[trigger] self.bins()[i], j)
                ==> required_sum(store, self.bins(), self.sizes(), j, self.bins().len() as int)
                + candidate_sum(store, self.bins(), self.sizes(), j, self.bins().len() as int)
                - self.sizes()[i] >= store.lower(self.loads()[j])
    }

    /// The sizes of the items that are free to go to bin `j` or elsewhere,
    /// in their order.
    pub open spec fn candidate_sizes_of(&self, store: &Assignments, j: int) -> Seq<i32> {
        picked_sizes(
            self.sizes(),
            candidate_list(store, self.bins(), j, self.bins().len() as int),
        )
    }

    /// Whether the test on the candidates of bin `j` finds nothing: it
    /// prunes neither on the two bounds of the load less what is packed,
    /// nor on either of them alone; and it prunes on the candidates without
    /// one of them neither on those bounds nor on those bounds less the
    /// size of that candidate.
    pub open spec fn untested(&self, store: &Assignments, j: int) -> bool {
        let sizes = self.candidate_sizes_of(store, j);
        let packed = required_sum(store, self.bins(), self.sizes(), j, self.bins().len() as int);
        let alpha = store.lower(self.loads()[j]) - packed;
        let beta = store.upper(self.loads()[j]) - packed;
        &&& !prunes(sizes, alpha, beta)
        &&& !prunes(sizes, alpha, alpha)
        &&& !prunes(sizes, beta, beta)
        &&& (forall|t: int|
            0 <= t < sizes.len() ==> #[trigger] candidate_untested(sizes, alpha, beta, t))
    }

    /// Whether the rules of coherence, elimination and commitment and the
    /// test on the candidates find nothing to do for bin `j`.
    pub open spec fn bin_stable(&self, store: &Assignments, j: int) -> bool {
        self.coherent(store, j) && self.fits_all(store, j) && self.needs_none(store, j)
            && self.untested(store, j)
    }

    /// Whether the loads are maintained and the other rules find nothing
    /// to do for any bin.
    pub open spec fn stable(&self, store: &Assignments) -> bool {
        &&& self.loads_maintained(store)
        &&& (forall|j: int| 0 <= j < self.loads().len() ==> #[trigger] self.bin_stable(store, j))
    }

    /// Stores with the same domains are stable for a bin together, rule by
    /// rule.
    pub proof fn lemma_bin_stable(&self, first: &Assignments, second: &Assignments, j: int)
        requires
            second.unchanged_since(first) || first.unchanged_since(second),
        ensures
            self.coherent(first, j) ==> self.coherent(second, j),
            self.fits_all(first, j) ==> self.fits_all(second, j),
            self.needs_none(first, j) ==> self.needs_none(second, j),
            self.untested(first, j) ==> self.untested(second, j),
            self.bin_stable(first, j) ==> self.bin_stable(second, j),
    {
        let any = Predicate::LowerBound { domain_id: DomainId { id: 0 }, lower_bound: 0 };
        if second.unchanged_since(first) {
            second.lemma_unchanged(first, any);
        } else {
            first.lemma_unchanged(second, any);
        }
        let n = self.bins().len() as int;
        let m = self.loads().len() as int;
        lemma_sums_same(first, second, self.bins(), self.sizes(), j, n);
        lemma_other_bounds_same(first, second, self.loads(), j, true, m);
        lemma_other_bounds_same(first, second, self.loads(), j, false, m);
        lemma_candidate_list_same(first, second, self.bins(), j, n);
        assert(self.candidate_sizes_of(first, j) == self.candidate_sizes_of(second, j));
        assert(first.lower(self.loads()[j]) == second.lower(self.loads()[j]));
        assert(first.upper(self.loads()[j]) == second.upper(self.loads()[j]));
        if self.coherent(first, j) {
            assert forall|v: int| #[trigger] second.contains(self.loads()[j], v) implies total_size(
                self.sizes(),
            ) - other_bounds_sum(second, self.loads(), j, true, m) <= v <= total_size(
                self.sizes(),
            ) - other_bounds_sum(second, self.loads(), j, false, m) by {
                assert(first.contains(self.loads()[j], v));
            }
        }
        if self.fits_all(first, j) {
            assert forall|i: int|
                0 <= i < n && may_take(
                    second,
                    #[trigger] self.bins()[i],
                    j,
                ) implies self.sizes()[i] <= second.upper(self.loads()[j]) - required_sum(
                second,
                self.bins(),
                self.sizes(),
                j,
                n,
            ) by {
                assert(may_take(first, self.bins()[i], j));
            }
        }
        if self.needs_none(first, j) {
            assert forall|i: int|
                0 <= i < n && may_take(second, #[trigger] self.bins()[i], j) implies required_sum(
                second,
                self.bins(),
                self.sizes(),
                j,
                n,
            ) + candidate_sum(second, self.bins(), self.sizes(), j, n) - self.sizes()[i]
                >= second.lower(self.loads()[j]) by {
                assert(may_take(first, self.bins()[i], j));
            }
        }
        if self.untested(first, j) {
            let sizes = self.candidate_sizes_of(first, j);
            let packed = required_sum(first, self.bins(), self.sizes(), j, n);
            let alpha = first.lower(self.loads()[j]) - packed;
            let beta = first.upper(self.loads()[j]) - packed;
            assert(packed == required_sum(second, self.bins(), self.sizes(), j, n));
            assert(sizes == self.candidate_sizes_of(second, j));
            assert(alpha == second.lower(self.loads()[j]) - packed);
            assert(beta == second.upper(self.loads()[j]) - packed);
            assert(self.untested(second, j));
        }
    }

    /// Stores with the same domains maintain the loads together.
    pub proof fn lemma_loads_maintained(&self, first: &Assignments, second: &Assignments)
        requires
            second.unchanged_since(first),
            self.loads_maintained(first),
        ensures
            self.loads_maintained(second),
    {
        let any = Predicate::LowerBound { domain_id: DomainId { id: 0 }, lower_bound: 0 };
        second.lemma_unchanged(first, any);
        assert forall|j: int, v: int|
            0 <= j < self.loads().len() && #[trigger] second.contains(
                self.loads()[j],
                v,
            ) implies required_sum(second, self.bins(), self.sizes(), j, self.bins().len() as int)
            <= v <= required_sum(second, self.bins(), self.sizes(), j, self.bins().len() as int)
            + candidate_sum(second, self.bins(), self.sizes(), j, self.bins().len() as int) by {
            lemma_sums_same(first, second, self.bins(), self.sizes(), j, self.bins().len() as int);
            assert(first.contains(self.loads()[j], v));
        }
    }

    /// The loads, the bins of the items and the sizes of the items, in
    /// numbers.
    pub open spec fn in_numbers(&self) -> Seq<Seq<int>> {
        seq![
            Seq::new(self.loads().len(), |j: int| self.loads()[j].id as int),
            Seq::new(self.bins().len(), |i: int| self.bins()[i].id as int),
            Seq::new(self.sizes().len(), |i: int| self.sizes()[i] as int),
        ]
    }

    /// Propagators that are about the same have the same loads, bins and
    /// sizes.
    pub proof fn lemma_same_constraint(&self, other: &BinPackingPropagator)
        requires
            self.in_numbers() == other.in_numbers(),
        ensures
            self.loads() == other.loads(),
            self.bins() == other.bins(),
            self.sizes() == other.sizes(),
    {
        let a = self.in_numbers();
        let b = other.in_numbers();
        assert(a[0] == b[0] && a[1] == b[1] && a[2] == b[2]);
        assert(self.loads().len() == a[0].len() && other.loads().len() == b[0].len());
        assert(self.bins().len() == a[1].len() && other.bins().len() == b[1].len());
        assert(self.sizes().len() == a[2].len() && other.sizes().len() == b[2].len());
        assert forall|j: int| 0 <= j < self.loads().len() implies self.loads()[j]
            == other.loads()[j] by {
            assert(a[0][j] == b[0][j]);
        }
        assert forall|i: int| 0 <= i < self.bins().len() implies self.bins()[i]
            == other.bins()[i] by {
            assert(a[1][i] == b[1][i]);
        }
        assert forall|i: int| 0 <= i < self.sizes().len() implies self.sizes()[i]
            == other.sizes()[i] by {
            assert(a[2][i] == b[2][i]);
        }
        assert(self.loads() =~= other.loads());
        assert(self.bins() =~= other.bins());
        assert(self.sizes() =~= other.sizes());
    }

    /// Whether `x` is a load or the bin of an item.
    pub open spec fn is_variable(&self, x: DomainId) -> bool {
        (exists|j: int| 0 <= j < self.loads().len() && #[trigger] self.loads()[j] == x) || (
        exists|i: int| 0 <= i < self.bins().len() && #[trigger] self.bins()[i] == x)
    }

    /// A solution within a store is a solution within each store that the
    /// store continues.
    pub proof fn lemma_solution_earlier(
        &self,
        earlier: &Assignments,
        later: &Assignments,
        values: spec_fn(DomainId) -> int,
    )
        requires
            later.wf(),
            later.extends(earlier),
            self.is_solution(later, values),
        ensures
            self.is_solution(earlier, values),
    {
        assert forall|j: int| 0 <= j < self.loads().len() implies earlier.contains(
            #[trigger] self.loads()[j],
            values(self.loads()[j]),
        ) by {
            later.lemma_extends_shrinks(earlier, self.loads()[j], values(self.loads()[j]));
        }
        assert forall|i: int| 0 <= i < self.bins().len() implies earlier.contains(
            #[trigger] self.bins()[i],
            values(self.bins()[i]),
        ) by {
            later.lemma_extends_shrinks(earlier, self.bins()[i], values(self.bins()[i]));
        }
        assert forall|x: DomainId| earlier.has(x) implies #[trigger] earlier.contains(
            x,
            values(x),
        ) by {
            assert(later.contains(x, values(x)));
            later.lemma_extends_shrinks(earlier, x, values(x));
        }
    }

    /// Where each solution within `before` is one within `after`, `after`
    /// allows each packing that `before` allows.
    pub proof fn lemma_allowed_kept(&self, before: &Assignments, after: &Assignments)
        requires
            self.scope() <= before.num_domains(),
            self.keeps_solutions(before, after),
        ensures
            forall|values: spec_fn(DomainId) -> int| #[trigger]
                self.satisfied_by(values) && before.allows(values) ==> after.allows(values),
    {
        assert forall|values: spec_fn(DomainId) -> int| #[trigger]
            self.satisfied_by(values) && before.allows(values) implies after.allows(values) by {
            self.lemma_allowed_packing(before, values);
            assert(self.is_solution(after, values));
        }
    }

    /// A store within which there is no solution allows no packing.
    pub proof fn lemma_allowed_refuted(&self, store: &Assignments)
        requires
            self.scope() <= store.num_domains(),
            self.has_no_solution(store),
        ensures
            forall|values: spec_fn(DomainId) -> int|
                !(#[trigger] self.satisfied_by(values) && store.allows(values)),
    {
        assert forall|values: spec_fn(DomainId) -> int|
            !(#[trigger] self.satisfied_by(values) && store.allows(values)) by {
            if self.satisfied_by(values) && store.allows(values) {
                self.lemma_allowed_packing(store, values);
            }
        }
    }

    /// A packing that gives each variable of a store a value of its domain
    /// is a solution within the store.
    pub proof fn lemma_allowed_packing(&self, store: &Assignments, values: spec_fn(DomainId) -> int)
        requires
            self.scope() <= store.num_domains(),
            is_packing(self.loads(), self.bins(), self.sizes(), values),
            store.allows(values),
        ensures
            self.is_solution(store, values),
    {
        self.lemma_within_scope(store.num_domains());
        assert forall|j: int| 0 <= j < self.loads().len() implies store.contains(
            #[trigger] self.loads()[j],
            values(self.loads()[j]),
        ) by {
            assert(store.has(self.loads()[j]));
        }
        assert forall|i: int| 0 <= i < self.bins().len() implies store.contains(
            #[trigger] self.bins()[i],
            values(self.bins()[i]),
        ) by {
            assert(store.has(self.bins()[i]));
        }
    }

    pub proof fn lemma_within_scope(&self, num_domains: nat)
        requires
            self.scope() <= num_domains,
        ensures
            self.within_scope(num_domains),
    {
        assert forall|j: int| 0 <= j < self.loads().len() implies (
        #[trigger] self.loads()[j]).index() < num_domains by {
            lemma_scope_of(self.loads(), j);
        }
        assert forall|i: int| 0 <= i < self.bins().len() implies (
        #[trigger] self.bins()[i]).index() < num_domains by {
            lemma_scope_of(self.bins(), i);
        }
    }

    /// The propagator for the given loads, bins and sizes. The items are
    /// sorted, bins and sizes jointly, in non-increasing order of size.
    pub fn new(loads: Vec<DomainId>, bins: Vec<DomainId>, sizes: Vec<i32>) -> (r:
        BinPackingPropagator)
        requires
            bins.len() == sizes.len(),
            non_negative(sizes@),
            total_size(sizes@) <= i32::MAX,
            loads.len() <= i32::MAX,
            loads.len() + bins.len() <= u32::MAX,
        ensures
            r.loads() == loads@,
            r.bins().len() == bins.len(),
            r.sizes().len() == sizes.len(),
            non_increasing(r.sizes()),
            items_of(r.bins(), r.sizes()).to_multiset() == items_of(bins@, sizes@).to_multiset(),
    {
        // Sort items (bins and sizes) in non-increasing size
        let mut sorted_bins: Vec<DomainId> = Vec::new();
        let mut sorted_sizes: Vec<i32> = Vec::new();
        let ghost input = items_of(bins@, sizes@);
        let mut k: usize = 0;
        proof {
            assert(input.take(0) =~= Seq::<(DomainId, i32)>::empty());
            assert(items_of(sorted_bins@, sorted_sizes@) =~= Seq::<(DomainId, i32)>::empty());
        }
        while k < bins.len()
            invariant
                bins.len() == sizes.len(),
                input == items_of(bins@, sizes@),
                k <= bins.len(),
                sorted_bins.len() == k,
                sorted_sizes.len() == k,
                non_increasing(sorted_sizes@),
                items_of(sorted_bins@, sorted_sizes@).to_multiset() == input.take(
                    k as int,
                ).to_multiset(),
            decreases bins.len() - k,
        {
            let size = sizes[k];
            let mut at: usize = 0;
            while at < sorted_sizes.len() && sorted_sizes[at] >= size
                invariant
                    at <= sorted_sizes.len(),
                    forall|i: int| 0 <= i < at ==> sorted_sizes@[i] >= size,
                decreases sorted_sizes.len() - at,
            {
                at += 1;
            }
            let ghost before = items_of(sorted_bins@, sorted_sizes@);
            let ghost sizes_before = sorted_sizes@;
            sorted_bins.insert(at, bins[k]);
            sorted_sizes.insert(at, size);
            proof {
                let after = items_of(sorted_bins@, sorted_sizes@);
                assert(after =~= before.insert(at as int, (bins@[k as int], size)));
                vstd::seq_lib::to_multiset_insert(before, at as int, (bins@[k as int], size));
                assert(input.take(k + 1) =~= input.take(k as int).push(input[k as int]));
                vstd::seq_lib::to_multiset_build(input.take(k as int), input[k as int]);
                assert forall|i: int, j: int|
                    0 <= i <= j < sorted_sizes@.len() implies sorted_sizes@[i]
                    >= sorted_sizes@[j] by {
                    let i0 = if i < at {
                        i
                    } else {
                        i - 1
                    };
                    let j0 = if j < at {
                        j
                    } else {
                        j - 1
                    };
                    if i != at && j != at {
                        assert(sizes_before[i0] >= sizes_before[j0]);
                    } else if i == at && j != at {
                        if at < sizes_before.len() {
                            assert(sizes_before[at as int] >= sizes_before[j0]);
                        }
                    }
                }
            }
            k += 1;
        }
        proof {
            assert(input.take(k as int) =~= input);
            lemma_sorted_total(
                sizes@,
                bins@,
                sorted_sizes@,
                sorted_bins@,
            );
        }
        BinPackingPropagator { loads, bins: sorted_bins, sizes: sorted_sizes }
    }
}

impl BinPackingPropagator {
    /// Whether the context can be propagated on for bin `j`.
    spec fn ready(&self, context: &PropagationContextMut, j: int) -> bool {
        &&& context.wf()
        &&& self.within_scope(context.store().num_domains())
        &&& 0 <= j < self.loads().len()
    }

    /// Whether `view` describes bin `j` in `store`.
    spec fn view_ok(&self, view: &BinView, store: &Assignments, j: int) -> bool {
        let n = self.bins@.len() as int;
        &&& increasing_below(view.required@, n)
        &&& increasing_below(view.candidates@, n)
        &&& (forall|i: int|
            0 <= i < n ==> (view.required@.contains(i as usize) <==> store.contains(
                #[trigger] self.bins@[i],
                j,
            ) && store.is_fixed(self.bins@[i])))
        &&& (forall|i: int|
            0 <= i < n ==> (view.candidates@.contains(i as usize) <==> store.contains(
                #[trigger] self.bins@[i],
                j,
            ) && !store.is_fixed(self.bins@[i])))
        &&& store.entails(view.required_reason@)
        &&& store.entails(view.candidate_reason@)
        &&& view.candidates@ == candidate_list(store, self.bins@, j, n)
        &&& view.required_reason@ == required_words(store, self.bins@, j, n)
        &&& view.candidate_reason@ == candidate_words(store, self.bins@, j)
        &&& view.packed_sum == picked_sum(self.sizes@, view.required@, view.required@.len() as int)
        &&& view.candidate_sum == picked_sum(
            self.sizes@,
            view.candidates@,
            view.candidates@.len() as int,
        )
    }

    /// Gathers the items that are fixed to bin `j` and those that may still
    /// go to it.
    fn view_of(&self, context: &PropagationContextMut, j: usize) -> (view: BinView)
        requires
            self.ready(context, j as int),
        ensures
            self.view_ok(&view, context.store(), j as int),
    {
        proof {
            use_type_invariant(self);
        }
        let value = j as i32;
        let n = self.bins.len();
        let ghost store = context.store();
        let mut required: Vec<usize> = Vec::new();
        let mut candidates: Vec<usize> = Vec::new();
        let mut required_reason: Vec<Predicate> = Vec::new();
        let mut candidate_reason: Vec<Predicate> = Vec::new();
        let mut packed_sum: i32 = 0;
        let mut candidate_sum: i32 = 0;
        let mut i: usize = 0;
        while i < n
            invariant
                self.valid(),
                self.ready(context, j as int),
                store == context.store(),
                value == j,
                n == self.bins@.len(),
                i <= n,
                increasing_below(required@, i as int),
                increasing_below(candidates@, i as int),
                forall|k: int|
                    0 <= k < i ==> (required@.contains(k as usize) <==> store.contains(
                        #[trigger] self.bins@[k],
                        j as int,
                    ) && store.is_fixed(self.bins@[k])),
                forall|k: int|
                    0 <= k < i ==> (candidates@.contains(k as usize) <==> store.contains(
                        #[trigger] self.bins@[k],
                        j as int,
                    ) && !store.is_fixed(self.bins@[k])),
                store.entails(required_reason@),
                store.entails(candidate_reason@),
                required_reason@ == required_words(store, self.bins@, j as int, i as int),
                candidate_reason@ == excluded_words(store, self.bins@, j as int, i as int),
                candidates@ == candidate_list(store, self.bins@, j as int, i as int),
                packed_sum == picked_sum(self.sizes@, required@, required@.len() as int),
                candidate_sum == picked_sum(self.sizes@, candidates@, candidates@.len() as int),
            decreases n - i,
        {
            let bin = self.bins[i];
            let ghost required_before = required@;
            let ghost candidates_before = candidates@;
            proof {
                assert(self.bins()[i as int] == bin);
                lemma_current_facts(store, bin, j as int);
                lemma_prefix_monotone(self.sizes@, i + 1, n as int);
            }
            if context.contains(&bin, value) {
                if context.is_fixed(&bin) {
                    required.push(i);
                    proof {
                        lemma_entails_push(store, required_reason@, Predicate::equal_to(bin, value));
                        lemma_picked_same(self.sizes@, required_before, i);
                        lemma_picked_bound(
                            self.sizes@,
                            required@,
                            required@.len() as int,
                            i + 1,
                        );
                    }
                    required_reason.push(Predicate::equal(bin, value));
                    packed_sum += self.sizes[i];
                } else {
                    candidates.push(i);
                    proof {
                        lemma_picked_same(self.sizes@, candidates_before, i);
                        lemma_picked_bound(
                            self.sizes@,
                            candidates@,
                            candidates@.len() as int,
                            i + 1,
                        );
                    }
                    candidate_sum += self.sizes[i];
                }
            } else {
                proof {
                    lemma_entails_push(
                        store,
                        candidate_reason@,
                        Predicate::differs_from(bin, value),
                    );
                }
                candidate_reason.push(Predicate::not_equal(bin, value));
            }
            proof {
                lemma_pushed_contains(required_before, required@, i);
                lemma_pushed_contains(candidates_before, candidates@, i);
            }
            i += 1;
        }
        // Add items that are packed in bin j to the reason
        let ghost excluded = candidate_reason@;
        let mut t: usize = 0;
        while t < required_reason.len()
            invariant
                t <= required_reason.len(),
                store.entails(required_reason@),
                store.entails(candidate_reason@),
                candidate_reason@ == excluded + required_reason@.take(t as int),
            decreases required_reason.len() - t,
        {
            proof {
                lemma_entails_push(store, candidate_reason@, required_reason@[t as int]);
                assert(required_reason@.take(t + 1) =~= required_reason@.take(t as int).push(
                    required_reason@[t as int],
                ));
            }
            candidate_reason.push(required_reason[t]);
            proof {
                assert(candidate_reason@ =~= excluded + required_reason@.take(t + 1));
            }
            t += 1;
        }
        proof {
            assert(required_reason@.take(t as int) =~= required_reason@);
        }
        BinView {
            required,
            candidates,
            required_reason,
            candidate_reason,
            packed_sum,
            candidate_sum,
        }
    }

    /// What a solution within `store` puts in bin `j`, in the terms of a
    /// view of the bin in `store`: the items that are fixed to the bin and a
    /// subset of the candidates.
    proof fn lemma_view_sums(
        &self,
        view: &BinView,
        store: &Assignments,
        j: int,
        values: spec_fn(DomainId) -> int,
    )
        requires
            self.valid(),
            store.wf(),
            self.within_scope(store.num_domains()),
            0 <= j < self.loads().len(),
            self.view_ok(view, store, j),
            self.is_solution(store, values),
        ensures
            values(self.loads()[j]) == view.packed_sum + subset_sum(
                picked_sizes(self.sizes@, view.candidates@),
                chosen_mask(self.bins@, values, j, view.candidates@),
            ),
            0 <= subset_sum(
                picked_sizes(self.sizes@, view.candidates@),
                chosen_mask(self.bins@, values, j, view.candidates@),
            ) <= view.candidate_sum,
            0 <= view.packed_sum,
            view.packed_sum + view.candidate_sum <= total_size(self.sizes@),
            forall|t: int|
                0 <= t < view.candidates@.len() ==> {
                    let i = #[trigger] view.candidates@[t] as int;
                    let chosen = subset_sum(
                        picked_sizes(self.sizes@, view.candidates@),
                        chosen_mask(self.bins@, values, j, view.candidates@),
                    );
                    &&& (values(self.bins@[i]) == j ==> chosen >= self.sizes@[i])
                    &&& (values(self.bins@[i]) != j ==> chosen <= view.candidate_sum
                        - self.sizes@[i])
                },
    {
        let n = self.bins@.len() as int;
        assert forall|i: int| 0 <= i < n implies store.has(#[trigger] self.bins@[i]) by {
            assert(self.bins()[i].index() < store.num_domains());
        }
        lemma_bin_sum_split(store, self.bins@, self.sizes@, values, j, n);
        lemma_required_list(store, self.bins@, self.sizes@, j, view.required@, n);
        lemma_candidate_list(store, self.bins@, self.sizes@, values, j, view.candidates@, n);
        assert(values(self.loads()[j]) == bin_sum(self.bins@, self.sizes@, values, j, n));
        assert forall|t: int| 0 <= t < view.candidates@.len() implies {
            let i = #[trigger] view.candidates@[t] as int;
            let chosen = subset_sum(
                picked_sizes(self.sizes@, view.candidates@),
                chosen_mask(self.bins@, values, j, view.candidates@),
            );
            &&& (values(self.bins@[i]) == j ==> chosen >= self.sizes@[i])
            &&& (values(self.bins@[i]) != j ==> chosen <= view.candidate_sum - self.sizes@[i])
        } by {
            let i = view.candidates@[t] as int;
            assert(view.candidates@.contains(i as usize));
            assert(may_take(store, self.bins@[i], j));
            lemma_chosen_item(store, self.bins@, self.sizes@, values, j, n, i);
        }
    }

    /// A solution gives each of its variables a legal value.
    proof fn lemma_solution_legal(
        &self,
        store: &Assignments,
        values: spec_fn(DomainId) -> int,
        x: DomainId,
    )
        requires
            store.wf(),
            self.within_scope(store.num_domains()),
            self.is_solution(store, values),
            self.is_variable(x),
        ensures
            store.contains(x, values(x)),
            crate::predicate::legal_value(values(x)),
            store.lower(x) <= values(x) <= store.upper(x),
    {
        if exists|j: int| 0 <= j < self.loads().len() && #[trigger] self.loads()[j] == x {
            let j = choose|j: int| 0 <= j < self.loads().len() && #[trigger] self.loads()[j] == x;
            assert(store.contains(self.loads()[j], values(self.loads()[j])));
        } else {
            let i = choose|i: int| 0 <= i < self.bins().len() && #[trigger] self.bins()[i] == x;
            assert(store.contains(self.bins()[i], values(self.bins()[i])));
        }
        store.lemma_bounds(store.trail_len() as int, x);
    }

    /// Posts `predicate`, which each solution meets, with a copy of
    /// `reason`.
    fn post(
        &self,
        context: &mut PropagationContextMut,
        predicate: Predicate,
        reason: &Vec<Predicate>,
    ) -> (r: PropagationStatusCP)
        requires
            old(context).wf(),
            self.within_scope(old(context).store().num_domains()),
            old(context).store().has(predicate.domain()),
            old(context).store().entails(reason@),
            self.is_variable(predicate.domain()),
            self.sound(old(context).store(), predicate),
        ensures
            final(context).changed(old(context), predicate, reason@, r),
            r matches Err(e) ==> e.holds_in(final(context).store()),
            final(context).store().entails(reason@),
            self.keeps_solutions(old(context).store(), final(context).store()),
            r is Err ==> self.has_no_solution(old(context).store()),
    {
        let ghost before = *context;
        let conjunction = PropositionalConjunction::new(copy_of(reason));
        let result = context.post_predicate(predicate, conjunction);
        let ghost outcome = result;
        proof {
            assert forall|values: spec_fn(DomainId) -> int| #[trigger]
                self.is_solution(before.store(), values) implies self.is_solution(
                context.store(),
                values,
            ) && outcome is Ok by {
                self.lemma_solution_legal(before.store(), values, predicate.domain());
                assert(predicate.holds(values(predicate.domain())));
                assert(before.store().contains(predicate.domain(), values(predicate.domain())));
                if outcome is Ok {
                    assert forall|j: int| 0 <= j < self.loads().len() implies context.store().contains(
                        #[trigger] self.loads()[j],
                        values(self.loads()[j]),
                    ) by {
                        assert(before.store().contains(self.loads()[j], values(self.loads()[j])));
                    }
                    assert forall|i: int| 0 <= i < self.bins().len() implies context.store().contains(
                        #[trigger] self.bins()[i],
                        values(self.bins()[i]),
                    ) by {
                        assert(before.store().contains(self.bins()[i], values(self.bins()[i])));
                    }
                }
            }
            context.store().lemma_extends_entails(before.store(), reason@);
            if let Err(Inconsistency::EmptyDomain { predicate: p, reason: c }) = outcome {
                let stored = before.explained(reason@);
                assert forall|k: int| 0 <= k < stored.len() implies context.store().satisfies(
                    #[trigger] stored[k],
                ) by {
                    if k < reason@.len() {
                        assert(stored[k] == reason@[k]);
                    } else {
                        assert(stored[k] == before.reification_predicates()[k - reason@.len()]);
                    }
                }
            }
        }
        result
    }

    /// Posts `predicate`, which each solution meets, with `reason` and one
    /// more predicate that the store satisfies.
    fn post_with(
        &self,
        context: &mut PropagationContextMut,
        predicate: Predicate,
        reason: &Vec<Predicate>,
        extra: Predicate,
    ) -> (r: PropagationStatusCP)
        requires
            old(context).wf(),
            self.within_scope(old(context).store().num_domains()),
            old(context).store().has(predicate.domain()),
            old(context).store().entails(reason@),
            old(context).store().satisfies(extra),
            self.is_variable(predicate.domain()),
            self.sound(old(context).store(), predicate),
        ensures
            final(context).changed(old(context), predicate, reason@.push(extra), r),
            r matches Err(e) ==> e.holds_in(final(context).store()),
            final(context).store().entails(reason@),
            self.keeps_solutions(old(context).store(), final(context).store()),
            r is Err ==> self.has_no_solution(old(context).store()),
    {
        let ghost before = *context;
        let mut full = copy_of(reason);
        full.push(extra);
        proof {
            lemma_entails_push(context.store(), reason@, extra);
        }
        let result = self.post(context, predicate, &full);
        proof {
            context.store().lemma_extends_entails(before.store(), reason@);
        }
        result
    }

    /// Rules 1 and 2: the load of bin `j` is at least the sum of the sizes
    /// of the items that are fixed to it, and at most the sum of the sizes
    /// of the items that may go to it.
    fn maintain_load(&self, context: &mut PropagationContextMut, j: usize, view: &BinView) -> (r:
        PropagationStatusCP)
        requires
            self.ready(old(context), j as int),
            self.view_ok(view, old(context).store(), j as int),
        ensures
            final(context).wf(),
            final(context).continues(old(context)),
            r matches Err(e) ==> e.holds_in(final(context).store()),
            self.keeps_solutions(old(context).store(), final(context).store()),
            r is Err ==> self.has_no_solution(old(context).store()),
            r is Ok ==> forall|v: int|
                final(context).store().contains(self.loads()[j as int], v) ==> view.packed_sum <= v
                    <= view.packed_sum + view.candidate_sum,
            (forall|v: int| #[trigger]
                old(context).store().contains(self.loads()[j as int], v) ==> view.packed_sum <= v
                    <= view.packed_sum + view.candidate_sum) ==> r is Ok
                        && final(context).store().unchanged_since(old(context).store()),
            forall|y: DomainId, v: int|
                y != self.loads()[j as int] ==> (#[trigger] final(context).store().contains(y, v)
                    <==> old(context).store().contains(y, v)),
            self.all_explained(
                old(context).store(),
                old(context).store().trail_len() as int,
                final(context).store(),
                old(context).reification_predicates(),
            ),
    {
        proof {
            use_type_invariant(self);
            lemma_picked(self.sizes@, view.required@, self.sizes@.len() as int);
            lemma_picked(self.sizes@, view.candidates@, self.sizes@.len() as int);
        }
        let ghost start = *context;
        let load = self.loads[j];
        assert(self.loads()[j as int].index() < context.store().num_domains());
        let lower = Predicate::lower_bound(load, view.packed_sum);
        proof {
            assert forall|values: spec_fn(DomainId) -> int| #[trigger]
                self.is_solution(start.store(), values) implies lower.holds(
                values(lower.domain()),
            ) by {
                self.lemma_view_sums(view, start.store(), j as int, values);
            }
        }
        // Lower Load Maintenance.
        // Lower bound of load in bin j >= total item size in bin j
        let ghost quiet = forall|v: int| #[trigger]
            start.store().contains(self.loads()[j as int], v) ==> view.packed_sum <= v
                <= view.packed_sum + view.candidate_sum;
        let first_result = self.post(context, lower, &view.required_reason);
        proof {
            crate::literal::lemma_not_both(start.store(), lower);
            if quiet {
                assert forall|v: int| #[trigger]
                    start.store().contains_at(
                        start.store().trail_len() as int,
                        load,
                        v,
                    ) implies lower.holds(v) by {
                    assert(start.store().contains(self.loads()[j as int], v));
                }
                assert(start.store().satisfies(lower));
            }
            start.store().lemma_extends_reflexive();
            if first_result is Ok && !start.store().satisfies(lower) {
                lemma_new_entry(
                    start.store(),
                    context.store(),
                    lower,
                    ReasonView::Eager(start.explained(view.required_reason@)),
                );
                lemma_required_list(
                    start.store(),
                    self.bins@,
                    self.sizes@,
                    j as int,
                    view.required@,
                    self.bins@.len() as int,
                );
            }
            self.lemma_posted_explained(
                start.store(),
                start.store().trail_len() as int,
                start.store(),
                start.store(),
                &start,
                context,
                j as int,
                lower,
                view.required_reason@,
                first_result,
            );
        }
        match first_result {
            Err(e) => {
                return Err(e);
            },
            Ok(_) => {},
        }
        let ghost middle = *context;
        // Upper Load Maintenance.
        // Upper bound of load in bin j <= total item size of possible set for bin j
        let possible_sum = clamp(view.packed_sum as i64 + view.candidate_sum as i64);
        let upper = Predicate::upper_bound(load, possible_sum);
        proof {
            context.store().lemma_extends_entails(start.store(), view.candidate_reason@);
            assert forall|values: spec_fn(DomainId) -> int| #[trigger]
                self.is_solution(middle.store(), values) implies upper.holds(
                values(upper.domain()),
            ) by {
                self.lemma_solution_earlier(start.store(), middle.store(), values);
                self.lemma_view_sums(view, start.store(), j as int, values);
                self.lemma_solution_legal(middle.store(), values, load);
            }
        }
        // The reason is the candidate set Cj
        let result = self.post(context, upper, &view.candidate_reason);
        proof {
            crate::literal::lemma_not_both(middle.store(), upper);
            if quiet {
                let any = Predicate::LowerBound { domain_id: DomainId { id: 0 }, lower_bound: 0 };
                middle.store().lemma_unchanged(start.store(), any);
                assert forall|v: int| #[trigger]
                    middle.store().contains_at(
                        middle.store().trail_len() as int,
                        load,
                        v,
                    ) implies upper.holds(v) by {
                    assert(start.store().contains(load, v));
                    start.store().lemma_bounds(start.store().trail_len() as int, load);
                }
                assert(middle.store().satisfies(upper));
                context.store().lemma_unchanged_transitive(middle.store(), start.store());
            }
            if result is Ok && !middle.store().satisfies(upper) {
                let n = self.bins@.len() as int;
                lemma_new_entry(
                    middle.store(),
                    context.store(),
                    upper,
                    ReasonView::Eager(middle.explained(view.candidate_reason@)),
                );
                middle.store().lemma_bounds(middle.store().trail_len() as int, load);
                lemma_required_list(start.store(), self.bins@, self.sizes@, j as int, view.required@, n);
                lemma_candidate_list(
                    start.store(),
                    self.bins@,
                    self.sizes@,
                    |x: DomainId| 0int,
                    j as int,
                    view.candidates@,
                    n,
                );
            }
            self.lemma_posted_explained(
                start.store(),
                start.store().trail_len() as int,
                start.store(),
                start.store(),
                &middle,
                context,
                j as int,
                upper,
                view.candidate_reason@,
                result,
            );
            context.store().lemma_extends_transitive(middle.store(), start.store());
            if result is Ok {
                assert forall|v: int|
                    context.store().contains(
                        self.loads()[j as int],
                        v,
                    ) implies view.packed_sum <= v <= view.packed_sum + view.candidate_sum by {
                    assert(middle.store().contains(load, v));
                    context.store().lemma_bounds(context.store().trail_len() as int, load);
                }
            }
        }
        result
    }

    /// The sum of the bounds of the loads of all bins but `j`, and the
    /// predicates that state those bounds.
    fn other_bounds(&self, context: &PropagationContextMut, j: usize, upper: bool) -> (r: (
        i64,
        Vec<Predicate>,
    ))
        requires
            self.ready(context, j as int),
        ensures
            context.store().entails(r.1@),
            r.1@ == other_bounds_words(
                context.store(),
                self.loads(),
                j as int,
                upper,
                self.loads().len() as int,
            ),
            r.0 == other_bounds_sum(
                context.store(),
                self.loads(),
                j as int,
                upper,
                self.loads().len() as int,
            ),
            -0x4000_0000_0000_0000 <= r.0 <= 0x4000_0000_0000_0000,
    {
        proof {
            use_type_invariant(self);
        }
        let ghost store = context.store();
        let m = self.loads.len();
        let mut sum: i64 = 0;
        let mut reason: Vec<Predicate> = Vec::new();
        let mut k: usize = 0;
        while k < m
            invariant
                self.ready(context, j as int),
                store == context.store(),
                m == self.loads@.len(),
                m <= i32::MAX,
                k <= m,
                store.entails(reason@),
                reason@ == other_bounds_words(store, self.loads(), j as int, upper, k as int),
                sum == other_bounds_sum(store, self.loads(), j as int, upper, k as int),
                -0x8000_0000 * k <= sum <= 0x8000_0000 * k,
            decreases m - k,
        {
            if k != j {
                let load = self.loads[k];
                assert(self.loads()[k as int].index() < context.store().num_domains());
                proof {
                    lemma_current_facts(store, load, 0);
                    store.lemma_bounds(store.trail_len() as int, load);
                }
                if upper {
                    let bound = context.upper_bound(&load);
                    sum += bound as i64;
                    proof {
                        lemma_entails_push(
                            store,
                            reason@,
                            Predicate::UpperBound { domain_id: load, upper_bound: bound },
                        );
                    }
                    reason.push(Predicate::upper_bound(load, bound));
                } else {
                    let bound = context.lower_bound(&load);
                    sum += bound as i64;
                    proof {
                        lemma_entails_push(
                            store,
                            reason@,
                            Predicate::LowerBound { domain_id: load, lower_bound: bound },
                        );
                    }
                    reason.push(Predicate::lower_bound(load, bound));
                }
            }
            k += 1;
        }
        (sum, reason)
    }

    /// What the loads of the other bins sum to in a solution lies between
    /// the sums of their bounds.
    proof fn lemma_other_loads_bounded(
        &self,
        store: &Assignments,
        values: spec_fn(DomainId) -> int,
        j: int,
        m: int,
    )
        requires
            store.wf(),
            self.within_scope(store.num_domains()),
            self.is_solution(store, values),
            0 <= m <= self.loads().len(),
        ensures
            other_bounds_sum(store, self.loads(), j, false, m) <= other_loads_sum(
                self.loads(),
                values,
                j,
                m,
            ) <= other_bounds_sum(store, self.loads(), j, true, m),
        decreases m,
    {
        if m > 0 {
            self.lemma_other_loads_bounded(store, values, j, m - 1);
            let x = self.loads()[m - 1];
            assert(store.contains(x, values(x)));
            assert(x.index() < store.num_domains());
            store.lemma_bounds(store.trail_len() as int, x);
        }
    }

    /// Rules 3 and 4: the load of bin `j` is at least the sum of all sizes
    /// less the upper bounds of the loads of the other bins, and at most
    /// that sum less their lower bounds.
    fn keep_coherence(&self, context: &mut PropagationContextMut, j: usize) -> (r:
        PropagationStatusCP)
        requires
            self.ready(old(context), j as int),
        ensures
            final(context).wf(),
            final(context).continues(old(context)),
            r matches Err(e) ==> e.holds_in(final(context).store()),
            self.keeps_solutions(old(context).store(), final(context).store()),
            r is Err ==> self.has_no_solution(old(context).store()),
            r is Ok && self.loads().len() == 1 ==> forall|v: int|
                final(context).store().contains(self.loads()[0], v) ==> v == total_size(
                    self.sizes(),
                ),
            r is Ok && final(context).store().unchanged_since(old(context).store())
                ==> self.coherent(old(context).store(), j as int),
            self.coherent(old(context).store(), j as int) ==> r is Ok
                && final(context).store().unchanged_since(old(context).store()),
            r is Ok ==> self.coherent_with(old(context).store(), final(context).store(), j as int),
            forall|y: DomainId, v: int|
                y != self.loads()[j as int] ==> (#[trigger] final(context).store().contains(y, v)
                    <==> old(context).store().contains(y, v)),
            self.all_explained(
                old(context).store(),
                old(context).store().trail_len() as int,
                final(context).store(),
                old(context).reification_predicates(),
            ),
    {
        proof {
            use_type_invariant(self);
            lemma_prefix_monotone(self.sizes@, 0, self.sizes@.len() as int);
        }
        let ghost start = *context;
        let load = self.loads[j];
        assert(self.loads()[j as int].index() < context.store().num_domains());
        let total = sum_of_sizes(&self.sizes);
        let ghost m = self.loads@.len() as int;
        // Lower Load and Size Coherence.
        // Lower bound of load in bin j >= total size of all items - sum of upper bounds of loads
        // in all other bins
        let (total_upper_bounds, lower_coherence_reason) = self.other_bounds(context, j, true);
        let lower_bound = clamp(total as i64 - total_upper_bounds);
        let lower = Predicate::lower_bound(load, lower_bound);
        proof {
            assert forall|values: spec_fn(DomainId) -> int| #[trigger]
                self.is_solution(start.store(), values) implies lower.holds(
                values(lower.domain()),
            ) by {
                lemma_load_is_rest(self.loads@, self.bins@, self.sizes@, values, j as int);
                self.lemma_other_loads_bounded(start.store(), values, j as int, m);
                self.lemma_solution_legal(start.store(), values, load);
            }
        }
        let first_result = self.post(context, lower, &lower_coherence_reason);
        proof {
            crate::literal::lemma_not_both(start.store(), lower);
            start.store().lemma_bounds(start.store().trail_len() as int, load);
            if self.coherent(start.store(), j as int) {
                assert forall|v: int| #[trigger]
                    start.store().contains_at(
                        start.store().trail_len() as int,
                        load,
                        v,
                    ) implies lower.holds(v) by {
                    assert(start.store().contains(self.loads()[j as int], v));
                }
                assert(start.store().satisfies(lower));
            }
            start.store().lemma_extends_reflexive();
            if first_result is Ok && !start.store().satisfies(lower) {
                lemma_new_entry(
                    start.store(),
                    context.store(),
                    lower,
                    ReasonView::Eager(start.explained(lower_coherence_reason@)),
                );
            }
            self.lemma_posted_explained(
                start.store(),
                start.store().trail_len() as int,
                start.store(),
                start.store(),
                &start,
                context,
                j as int,
                lower,
                lower_coherence_reason@,
                first_result,
            );
        }
        match first_result {
            Err(e) => {
                return Err(e);
            },
            Ok(_) => {},
        }
        let ghost middle = *context;
        // Upper Load and Size Coherence.
        // Upper bound of load in bin j <= total size of all items - sum of lower bounds of loads
        // in all other bins
        let (total_lower_bounds, upper_coherence_reason) = self.other_bounds(context, j, false);
        let upper_bound = clamp(total as i64 - total_lower_bounds);
        let upper = Predicate::upper_bound(load, upper_bound);
        proof {
            assert forall|values: spec_fn(DomainId) -> int| #[trigger]
                self.is_solution(middle.store(), values) implies upper.holds(
                values(upper.domain()),
            ) by {
                lemma_load_is_rest(self.loads@, self.bins@, self.sizes@, values, j as int);
                self.lemma_other_loads_bounded(middle.store(), values, j as int, m);
                self.lemma_solution_legal(middle.store(), values, load);
            }
        }
        let result = self.post(context, upper, &upper_coherence_reason);
        proof {
            crate::literal::lemma_not_both(middle.store(), upper);
            if self.coherent(start.store(), j as int) {
                let any = Predicate::LowerBound { domain_id: DomainId { id: 0 }, lower_bound: 0 };
                middle.store().lemma_unchanged(start.store(), any);
                lemma_other_bounds_same(start.store(), middle.store(), self.loads(), j as int, false, m);
                assert forall|v: int| #[trigger]
                    middle.store().contains_at(
                        middle.store().trail_len() as int,
                        load,
                        v,
                    ) implies upper.holds(v) by {
                    assert(start.store().contains(self.loads()[j as int], v));
                }
                assert(middle.store().satisfies(upper));
                context.store().lemma_unchanged_transitive(middle.store(), start.store());
            }
            middle.store().lemma_extends_reflexive();
            if result is Ok && !middle.store().satisfies(upper) {
                lemma_new_entry(
                    middle.store(),
                    context.store(),
                    upper,
                    ReasonView::Eager(middle.explained(upper_coherence_reason@)),
                );
                middle.store().lemma_bounds(middle.store().trail_len() as int, load);
            }
            self.lemma_posted_explained(
                start.store(),
                start.store().trail_len() as int,
                middle.store(),
                middle.store(),
                &middle,
                context,
                j as int,
                upper,
                upper_coherence_reason@,
                result,
            );
            context.store().lemma_extends_transitive(middle.store(), start.store());
            if result is Ok {
                lemma_other_bounds_monotone(start.store(), middle.store(), self.loads(), j as int, m);
                context.store().lemma_bounds(context.store().trail_len() as int, load);
                assert forall|v: int| #[trigger]
                    context.store().contains(self.loads()[j as int], v) implies total_size(
                    self.sizes(),
                ) - other_bounds_sum(start.store(), self.loads(), j as int, true, m) <= v
                    <= total_size(self.sizes()) - other_bounds_sum(
                    start.store(),
                    self.loads(),
                    j as int,
                    false,
                    m,
                ) by {
                    assert(middle.store().contains(load, v));
                    assert(lower.holds(v));
                    assert(upper.holds(v));
                }
            }
            if result is Ok && context.store().unchanged_since(start.store()) {
                let any = Predicate::LowerBound { domain_id: DomainId { id: 0 }, lower_bound: 0 };
                context.store().lemma_unchanged_between(middle.store(), start.store());
                context.store().lemma_unchanged(start.store(), any);
                middle.store().lemma_unchanged(start.store(), any);
                lemma_other_bounds_same(start.store(), middle.store(), self.loads(), j as int, false, m);
                start.store().lemma_bounds(start.store().trail_len() as int, load);
                assert forall|v: int| #[trigger]
                    start.store().contains(self.loads()[j as int], v) implies total_size(
                    self.sizes(),
                ) - other_bounds_sum(start.store(), self.loads(), j as int, true, m) <= v
                    <= total_size(self.sizes()) - other_bounds_sum(
                    start.store(),
                    self.loads(),
                    j as int,
                    false,
                    m,
                ) by {
                    assert(context.store().contains(load, v));
                    assert(middle.store().contains(load, v));
                    assert(lower.holds(v));
                    assert(upper.holds(v));
                }
            }
            if result is Ok && m == 1 {
                assert(other_bounds_sum(start.store(), self.loads(), 0, true, 1) == 0) by {
                    assert(other_bounds_sum(start.store(), self.loads(), 0, true, 0) == 0);
                }
                assert(other_bounds_sum(middle.store(), self.loads(), 0, false, 1) == 0) by {
                    assert(other_bounds_sum(middle.store(), self.loads(), 0, false, 0) == 0);
                }
                assert forall|v: int|
                    context.store().contains(self.loads()[0], v) implies v == total_size(
                    self.sizes(),
                ) by {
                    assert(middle.store().contains(load, v));
                }
            }
        }
        result
    }

    /// Rule 5: a candidate whose size exceeds the space that is left in bin
    /// `j` cannot go to it. The space is what the upper bound of the load
    /// leaves above the sizes of the items that are fixed to the bin.
    fn eliminate_single_items(&self, context: &mut PropagationContextMut, j: usize, view: &BinView)
        -> (r: PropagationStatusCP)
        requires
            self.ready(old(context), j as int),
            self.view_ok(view, old(context).store(), j as int),
        ensures
            final(context).wf(),
            final(context).continues(old(context)),
            r matches Err(e) ==> e.holds_in(final(context).store()),
            self.keeps_solutions(old(context).store(), final(context).store()),
            r is Err ==> self.has_no_solution(old(context).store()),
            r is Ok ==> forall|t: int|
                0 <= t < view.candidates@.len()
                    && self.sizes()[view.candidates@[t] as int]
                    > old(context).store().upper(self.loads()[j as int]) - view.packed_sum
                    ==> !final(context).store().contains(
                    #[trigger] self.bins()[view.candidates@[t] as int],
                    j as int,
                ),
            r is Ok && final(context).store().unchanged_since(old(context).store())
                ==> self.fits_all(old(context).store(), j as int),
            self.fits_all(old(context).store(), j as int) ==> r is Ok && *final(context) == *old(context),
            self.all_explained(
                old(context).store(),
                old(context).store().trail_len() as int,
                final(context).store(),
                old(context).reification_predicates(),
            ),
    {
        proof {
            use_type_invariant(self);
            lemma_picked(self.sizes@, view.required@, self.sizes@.len() as int);
            context.store().lemma_extends_reflexive();
        }
        let ghost start = *context;
        let load = self.loads[j];
        assert(self.loads()[j as int].index() < context.store().num_domains());
        let value = j as i32;
        // The reason is the upper bound on the load of bin j and all items packed in it
        let upper = context.upper_bound(&load);
        let bound = Predicate::upper_bound(load, upper);
        proof {
            lemma_current_facts(context.store(), load, 0);
        }
        // Remaining space in bin j is its upper bound - the sizes of items already packed in bin j
        let remaining_space = upper as i64 - view.packed_sum as i64;
        let mut t: usize = 0;
        while t < view.candidates.len()
            invariant
                self.valid(),
                self.ready(context, j as int),
                self.view_ok(view, start.store(), j as int),
                start.wf(),
                t <= view.candidates.len(),
                context.wf(),
                start == *old(context),
                context.continues(&start),
                context.store().entails(view.required_reason@),
                context.store().satisfies(bound),
                self.keeps_solutions(start.store(), context.store()),
                load == self.loads@[j as int],
                value == j,
                upper == start.store().upper(load),
                remaining_space == upper - view.packed_sum,
                bound == (Predicate::UpperBound { domain_id: load, upper_bound: upper }),
                self.fits_all(start.store(), j as int) ==> *context == start,
                context.reification_predicates() == start.reification_predicates(),
                self.all_explained(
                    start.store(),
                    start.store().trail_len() as int,
                    context.store(),
                    start.reification_predicates(),
                ),
                forall|u: int|
                    0 <= u < t && self.sizes@[view.candidates@[u] as int] > remaining_space
                        ==> !context.store().contains(
                        #[trigger] self.bins@[view.candidates@[u] as int],
                        j as int,
                    ),
            decreases view.candidates.len() - t,
        {
            let i = view.candidates[t];
            let ghost entered = *context;
            assert(self.bins()[i as int].index() < context.store().num_domains());
            proof {
                context.store().lemma_extends_reflexive();
                if self.fits_all(start.store(), j as int) {
                    lemma_required_list(
                        start.store(),
                        self.bins@,
                        self.sizes@,
                        j as int,
                        view.required@,
                        self.bins@.len() as int,
                    );
                    assert(view.candidates@.contains(i as usize));
                    assert(may_take(start.store(), self.bins()[i as int], j as int));
                }
            }
            if self.sizes[i] as i64 > remaining_space {
                let ghost before = *context;
                let removal = Predicate::not_equal(self.bins[i], value);
                proof {
                    assert forall|values: spec_fn(DomainId) -> int| #[trigger]
                        self.is_solution(before.store(), values) implies removal.holds(
                        values(removal.domain()),
                    ) by {
                        self.lemma_solution_earlier(start.store(), before.store(), values);
                        self.lemma_view_sums(view, start.store(), j as int, values);
                        self.lemma_solution_legal(start.store(), values, load);
                    }
                }
                // Remove bin allocation j from the item's domain
                let result = self.post_with(context, removal, &view.required_reason, bound);
                proof {
                    start.store().lemma_extends_reflexive();
                    assert(self.bins()[i as int] == removal.domain());
                    if result is Ok && !before.store().satisfies(removal) {
                        lemma_new_entry(
                            before.store(),
                            context.store(),
                            removal,
                            ReasonView::Eager(before.explained(view.required_reason@.push(bound))),
                        );
                        lemma_required_list(
                            start.store(),
                            self.bins@,
                            self.sizes@,
                            j as int,
                            view.required@,
                            self.bins@.len() as int,
                        );
                    }
                    self.lemma_posted_explained(
                        start.store(),
                        start.store().trail_len() as int,
                        start.store(),
                        start.store(),
                        &before,
                        context,
                        j as int,
                        removal,
                        view.required_reason@.push(bound),
                        result,
                    );
                    context.store().lemma_extends_transitive(before.store(), start.store());
                    context.store().lemma_extends_keeps(before.store(), bound);
                }
                match result {
                    Err(e) => {
                        return Err(e);
                    },
                    Ok(_) => {},
                }
            }
            proof {
                assert forall|u: int|
                    0 <= u < t + 1 && self.sizes@[view.candidates@[u] as int]
                        > remaining_space implies !context.store().contains(
                    #[trigger] self.bins@[view.candidates@[u] as int],
                    j as int,
                ) by {
                    if u < t && context.store().contains(
                        self.bins@[view.candidates@[u] as int],
                        j as int,
                    ) {
                        context.store().lemma_extends_shrinks(
                            entered.store(),
                            self.bins@[view.candidates@[u] as int],
                            j as int,
                        );
                    }
                }
            }
            t += 1;
        }
        proof {
            if context.store().unchanged_since(start.store()) {
                let any = Predicate::LowerBound { domain_id: DomainId { id: 0 }, lower_bound: 0 };
                let n = self.bins@.len() as int;
                context.store().lemma_unchanged(start.store(), any);
                lemma_required_list(start.store(), self.bins@, self.sizes@, j as int, view.required@, n);
                assert forall|i: int|
                    0 <= i < n && may_take(
                        start.store(),
                        #[trigger] self.bins()[i],
                        j as int,
                    ) implies self.sizes()[i] <= start.store().upper(self.loads()[j as int])
                    - required_sum(start.store(), self.bins(), self.sizes(), j as int, n) by {
                    assert(view.candidates@.contains(i as usize));
                    let u = choose|u: int|
                        0 <= u < view.candidates@.len() && view.candidates@[u] == i as usize;
                    assert(context.store().contains(
                        self.bins@[view.candidates@[u] as int],
                        j as int,
                    ));
                }
            }
        }
        Ok(())
    }

    /// Rule 6: a candidate without which the items that may go to bin `j`
    /// cannot reach the lower bound of its load must go to it.
    fn commit_single_items(&self, context: &mut PropagationContextMut, j: usize, view: &BinView)
        -> (r: PropagationStatusCP)
        requires
            self.ready(old(context), j as int),
            self.view_ok(view, old(context).store(), j as int),
        ensures
            final(context).wf(),
            final(context).continues(old(context)),
            r matches Err(e) ==> e.holds_in(final(context).store()),
            self.keeps_solutions(old(context).store(), final(context).store()),
            r is Err ==> self.has_no_solution(old(context).store()),
            r is Ok ==> forall|t: int, v: int|
                0 <= t < view.candidates@.len() && view.packed_sum + view.candidate_sum
                    - self.sizes()[view.candidates@[t] as int] < old(context).store().lower(
                    self.loads()[j as int],
                ) && #[trigger] final(context).store().contains(
                    self.bins()[view.candidates@[t] as int],
                    v,
                ) ==> v == j,
            r is Ok && final(context).store().unchanged_since(old(context).store())
                ==> self.needs_none(old(context).store(), j as int),
            self.needs_none(old(context).store(), j as int) ==> r is Ok && *final(context)
                == *old(context),
            self.all_explained(
                old(context).store(),
                old(context).store().trail_len() as int,
                final(context).store(),
                old(context).reification_predicates(),
            ),
    {
        proof {
            use_type_invariant(self);
            lemma_picked(self.sizes@, view.required@, self.sizes@.len() as int);
            lemma_picked(self.sizes@, view.candidates@, self.sizes@.len() as int);
            context.store().lemma_extends_reflexive();
        }
        let ghost start = *context;
        let load = self.loads[j];
        assert(self.loads()[j as int].index() < context.store().num_domains());
        let value = j as i32;
        // Total size of items in possible set Pj (packed items AND candidate items)
        let total_size = view.packed_sum as i64 + view.candidate_sum as i64;
        // The reason is the lower bound on the load of bin j and the candidate items in Cj
        let bound = Predicate::lower_bound(load, context.lower_bound(&load));
        proof {
            lemma_current_facts(context.store(), load, 0);
        }
        let mut t: usize = 0;
        while t < view.candidates.len()
            invariant
                self.valid(),
                self.ready(context, j as int),
                self.view_ok(view, start.store(), j as int),
                start.wf(),
                t <= view.candidates.len(),
                context.wf(),
                start == *old(context),
                context.continues(&start),
                context.store().entails(view.candidate_reason@),
                context.store().satisfies(bound),
                self.keeps_solutions(start.store(), context.store()),
                load == self.loads@[j as int],
                value == j,
                total_size == view.packed_sum + view.candidate_sum,
                0 <= total_size <= 2 * i32::MAX,
                bound == (Predicate::LowerBound {
                    domain_id: load,
                    lower_bound: start.store().lower(load) as i32,
                }),
                self.needs_none(start.store(), j as int) ==> *context == start,
                context.reification_predicates() == start.reification_predicates(),
                self.all_explained(
                    start.store(),
                    start.store().trail_len() as int,
                    context.store(),
                    start.reification_predicates(),
                ),
                forall|u: int, v: int|
                    0 <= u < t && total_size - self.sizes@[view.candidates@[u] as int]
                        < start.store().lower(load) && #[trigger] context.store().contains(
                        self.bins@[view.candidates@[u] as int],
                        v,
                    ) ==> v == j,
            decreases view.candidates.len() - t,
        {
            let i = view.candidates[t];
            let ghost entered = *context;
            assert(self.bins()[i as int].index() < context.store().num_domains());
            assert(self.loads()[j as int].index() < context.store().num_domains());
            proof {
                if self.needs_none(start.store(), j as int) {
                    let n = self.bins@.len() as int;
                    lemma_required_list(start.store(), self.bins@, self.sizes@, j as int, view.required@, n);
                    lemma_candidate_list(
                        start.store(),
                        self.bins@,
                        self.sizes@,
                        |x: DomainId| 0int,
                        j as int,
                        view.candidates@,
                        n,
                    );
                    assert(view.candidates@.contains(i as usize));
                    assert(may_take(start.store(), self.bins()[i as int], j as int));
                }
                context.store().lemma_extends_reflexive();
                context.store().lemma_bounds(context.store().trail_len() as int, load);
                start.store().lemma_bounds(start.store().trail_len() as int, load);
                context.store().lemma_extends_shrinks(
                    start.store(),
                    load,
                    context.store().lower(load),
                );
            }
            if total_size - (self.sizes[i] as i64) < context.lower_bound(&load) as i64 {
                let ghost before = *context;
                let commitment = Predicate::equal(self.bins[i], value);
                proof {
                    assert forall|values: spec_fn(DomainId) -> int| #[trigger]
                        self.is_solution(before.store(), values) implies commitment.holds(
                        values(commitment.domain()),
                    ) by {
                        self.lemma_solution_earlier(start.store(), before.store(), values);
                        self.lemma_view_sums(view, start.store(), j as int, values);
                        self.lemma_solution_legal(before.store(), values, load);
                    }
                }
                // Assign bin allocation j to item i
                let result = self.post_with(context, commitment, &view.candidate_reason, bound);
                proof {
                    start.store().lemma_extends_reflexive();
                    assert(self.bins()[i as int] == commitment.domain());
                    if result is Ok && !before.store().satisfies(commitment) {
                        lemma_new_entry(
                            before.store(),
                            context.store(),
                            commitment,
                            ReasonView::Eager(before.explained(view.candidate_reason@.push(bound))),
                        );
                        let n = self.bins@.len() as int;
                        lemma_required_list(
                            start.store(),
                            self.bins@,
                            self.sizes@,
                            j as int,
                            view.required@,
                            n,
                        );
                        lemma_candidate_list(
                            start.store(),
                            self.bins@,
                            self.sizes@,
                            |x: DomainId| 0int,
                            j as int,
                            view.candidates@,
                            n,
                        );
                        assert(self.bins()[i as int] == commitment.domain() && required_sum(
                            start.store(),
                            self.bins(),
                            self.sizes(),
                            j as int,
                            n,
                        ) + candidate_sum(start.store(), self.bins(), self.sizes(), j as int, n)
                            - self.sizes()[i as int] < before.store().lower(load));
                    }
                    self.lemma_posted_explained(
                        start.store(),
                        start.store().trail_len() as int,
                        start.store(),
                        before.store(),
                        &before,
                        context,
                        j as int,
                        commitment,
                        view.candidate_reason@.push(bound),
                        result,
                    );
                    context.store().lemma_extends_transitive(before.store(), start.store());
                    context.store().lemma_extends_keeps(before.store(), bound);
                }
                match result {
                    Err(e) => {
                        return Err(e);
                    },
                    Ok(_) => {},
                }
            }
            proof {
                assert forall|u: int, v: int|
                    0 <= u < t + 1 && total_size - self.sizes@[view.candidates@[u] as int]
                        < start.store().lower(load) && #[trigger] context.store().contains(
                        self.bins@[view.candidates@[u] as int],
                        v,
                    ) implies v == j by {
                    if u < t {
                        context.store().lemma_extends_shrinks(
                            entered.store(),
                            self.bins@[view.candidates@[u] as int],
                            v,
                        );
                    }
                }
            }
            t += 1;
        }
        proof {
            if context.store().unchanged_since(start.store()) {
                let any = Predicate::LowerBound { domain_id: DomainId { id: 0 }, lower_bound: 0 };
                let n = self.bins@.len() as int;
                context.store().lemma_unchanged(start.store(), any);
                lemma_required_list(start.store(), self.bins@, self.sizes@, j as int, view.required@, n);
                lemma_candidate_list(
                    start.store(),
                    self.bins@,
                    self.sizes@,
                    |x: DomainId| 0int,
                    j as int,
                    view.candidates@,
                    n,
                );
                assert forall|i: int|
                    0 <= i < n && may_take(
                        start.store(),
                        #[trigger] self.bins()[i],
                        j as int,
                    ) implies required_sum(start.store(), self.bins(), self.sizes(), j as int, n)
                    + candidate_sum(start.store(), self.bins(), self.sizes(), j as int, n)
                    - self.sizes()[i] >= start.store().lower(self.loads()[j as int]) by {
                    assert(view.candidates@.contains(i as usize));
                    let u = choose|u: int|
                        0 <= u < view.candidates@.len() && view.candidates@[u] == i as usize;
                    let bin = self.bins@[view.candidates@[u] as int];
                    start.store().lemma_bounds(start.store().trail_len() as int, bin);
                    assert(context.store().contains(bin, start.store().lower(bin)));
                    assert(context.store().contains(bin, start.store().upper(bin)));
                }
            }
        }
        Ok(())
    }

    /// The description of the candidate set with the current bounds of the
    /// load of bin `j`: the lower bound, the upper bound or both.
    fn bounded_reason(
        &self,
        context: &PropagationContextMut,
        j: usize,
        view: &BinView,
        lower: bool,
        upper: bool,
    ) -> (r: Vec<Predicate>)
        requires
            self.ready(context, j as int),
            context.store().entails(view.candidate_reason@),
        ensures
            context.store().entails(r@),
            r@ == view.candidate_reason@ + (if lower {
                seq![
                    Predicate::LowerBound {
                        domain_id: self.loads()[j as int],
                        lower_bound: context.store().lower(self.loads()[j as int]) as i32,
                    },
                ]
            } else {
                seq![]
            }) + (if upper {
                seq![
                    Predicate::UpperBound {
                        domain_id: self.loads()[j as int],
                        upper_bound: context.store().upper(self.loads()[j as int]) as i32,
                    },
                ]
            } else {
                seq![]
            }),
    {
        let load = self.loads[j];
        assert(self.loads()[j as int].index() < context.store().num_domains());
        let mut reason = copy_of(&view.candidate_reason);
        proof {
            lemma_current_facts(context.store(), load, 0);
        }
        if lower {
            let bound = context.lower_bound(&load);
            proof {
                lemma_entails_push(
                    context.store(),
                    reason@,
                    Predicate::LowerBound { domain_id: load, lower_bound: bound },
                );
            }
            reason.push(Predicate::lower_bound(load, bound));
        }
        if upper {
            let bound = context.upper_bound(&load);
            proof {
                lemma_entails_push(
                    context.store(),
                    reason@,
                    Predicate::UpperBound { domain_id: load, upper_bound: bound },
                );
            }
            reason.push(Predicate::upper_bound(load, bound));
        }
        reason
    }

    /// The sizes of the candidates, in their order.
    fn candidate_sizes(&self, view: &BinView) -> (r: Vec<i32>)
        requires
            increasing_below(view.candidates@, self.bins@.len() as int),
        ensures
            r@ == picked_sizes(self.sizes@, view.candidates@),
    {
        proof {
            use_type_invariant(self);
        }
        let mut sizes: Vec<i32> = Vec::new();
        let mut t: usize = 0;
        while t < view.candidates.len()
            invariant
                self.valid(),
                increasing_below(view.candidates@, self.bins@.len() as int),
                t <= view.candidates.len(),
                sizes@ == picked_sizes(self.sizes@, view.candidates@).take(t as int),
            decreases view.candidates.len() - t,
        {
            sizes.push(self.sizes[view.candidates[t]]);
            proof {
                let all = picked_sizes(self.sizes@, view.candidates@);
                assert(all.take(t + 1) =~= all.take(t as int).push(all[t as int]));
            }
            t += 1;
        }
        proof {
            let all = picked_sizes(self.sizes@, view.candidates@);
            assert(all.take(t as int) =~= all);
        }
        sizes
    }

    /// What the test on the candidates does to the load of bin `j`, whose
    /// domain was `before` and is `after`. Where the test prunes on the
    /// bounds of the load there is a conflict, given by the description of
    /// the candidates and the two bounds, and nothing changes. Otherwise,
    /// where the test prunes on the lower bound alone, the load is at least
    /// what is packed with the upper sum of the first gap that the test
    /// finds there; and where it prunes on the upper bound alone, the load
    /// is at most what is packed with the lower sum of the first gap there.
    spec fn pruned_by_nosum(
        &self,
        before: &Assignments,
        after: &Assignments,
        j: int,
        view: &BinView,
        sizes: Seq<i32>,
        r: PropagationStatusCP,
    ) -> bool {
        let load = self.loads()[j];
        let alpha = before.lower(load) - view.packed_sum;
        let beta = before.upper(load) - view.packed_sum;
        &&& prunes(sizes, alpha, beta) ==> *after == *before && (r matches Err(
            Inconsistency::Conflict { conflict_nogood },
        ) && conflict_nogood@ == view.candidate_reason@.push(
            Predicate::LowerBound { domain_id: load, lower_bound: before.lower(load) as i32 },
        ).push(Predicate::UpperBound { domain_id: load, upper_bound: before.upper(load) as i32 }))
        &&& r is Ok ==> !prunes(sizes, alpha, beta)
        &&& r is Ok && prunes(sizes, alpha, alpha) ==> exists|below: int, above: int|
            #[trigger] first_gap_sums(sizes, alpha, alpha, below, above) && forall|v: int|
                #[trigger] after.contains(load, v) ==> v >= view.packed_sum + above
        &&& r is Ok && prunes(sizes, beta, beta) ==> exists|below: int, above: int|
            #[trigger] first_gap_sums(sizes, beta, beta, below, above) && forall|v: int|
                #[trigger] after.contains(load, v) ==> v <= view.packed_sum + below
    }

    /// Rules 7 and 8: where no subset of the candidates fills bin `j` to a
    /// load within its bounds there is a conflict; otherwise the bounds move
    /// to the nearest loads that a subset of the candidates can reach.
    fn prune_by_nosum(
        &self,
        context: &mut PropagationContextMut,
        j: usize,
        view: &BinView,
        candidate_sizes: &Vec<i32>,
        Ghost(base): Ghost<Assignments>,
    ) -> (r: PropagationStatusCP)
        requires
            self.ready(old(context), j as int),
            base.wf(),
            old(context).store().extends(&base),
            self.coherent_with(&base, old(context).store(), j as int),
            self.view_ok(view, old(context).store(), j as int),
            candidate_sizes@ == picked_sizes(self.sizes@, view.candidates@),
        ensures
            final(context).wf(),
            final(context).continues(old(context)),
            final(context).store().entails(view.candidate_reason@),
            r matches Err(e) ==> e.holds_in(final(context).store()),
            self.keeps_solutions(old(context).store(), final(context).store()),
            r is Err ==> self.has_no_solution(old(context).store()),
            self.pruned_by_nosum(
                old(context).store(),
                final(context).store(),
                j as int,
                view,
                candidate_sizes@,
                r,
            ),
            r is Ok && final(context).store().unchanged_since(old(context).store()) ==> {
                let alpha = old(context).store().lower(self.loads()[j as int]) - view.packed_sum;
                let beta = old(context).store().upper(self.loads()[j as int]) - view.packed_sum;
                &&& !prunes(candidate_sizes@, alpha, beta)
                &&& !prunes(candidate_sizes@, alpha, alpha)
                &&& !prunes(candidate_sizes@, beta, beta)
            },
            ({
                let alpha = old(context).store().lower(self.loads()[j as int]) - view.packed_sum;
                let beta = old(context).store().upper(self.loads()[j as int]) - view.packed_sum;
                &&& !prunes(candidate_sizes@, alpha, beta)
                &&& !prunes(candidate_sizes@, alpha, alpha)
                &&& !prunes(candidate_sizes@, beta, beta)
            }) ==> r is Ok && *final(context) == *old(context),
            self.all_explained(
                &base,
                old(context).store().trail_len() as int,
                final(context).store(),
                old(context).reification_predicates(),
            ),
    {
        proof {
            use_type_invariant(self);
            lemma_picked(self.sizes@, view.required@, self.sizes@.len() as int);
            lemma_picked(self.sizes@, view.candidates@, self.sizes@.len() as int);
            lemma_prefix_monotone(self.sizes@, 0, self.sizes@.len() as int);
            context.store().lemma_extends_reflexive();
        }
        let ghost start = *context;
        let load = self.loads[j];
        assert(self.loads()[j as int].index() < context.store().num_domains());
        let packed_sum = view.packed_sum as i64;
        let ghost sizes = candidate_sizes@;
        let ghost alpha0 = start.store().lower(load) - view.packed_sum;
        let ghost beta0 = start.store().upper(load) - view.packed_sum;
        let ghost mut raised = false;
        let ghost mut sum_below: int = 0;
        let ghost mut sum_above: int = 0;
        let ghost lower_words = Predicate::LowerBound {
            domain_id: load,
            lower_bound: start.store().lower(load) as i32,
        };
        let ghost upper_words = Predicate::UpperBound {
            domain_id: load,
            upper_bound: start.store().upper(load) as i32,
        };
        proof {
            context.store().lemma_bounds(context.store().trail_len() as int, load);
        }
        // NoSum Pruning
        // Read "A Constraint for Bin Packing" by Paul Shaw for details on NoSum
        // If nosum returns true, prune
        let (prune, _, _) = nosum_between(
            candidate_sizes.as_slice(),
            context.lower_bound(&load) as i64 - packed_sum,
            context.upper_bound(&load) as i64 - packed_sum,
        );
        if prune {
            // The reason is the bounds on the load of the bin and the candidate set
            let nosum_prune_reason = self.bounded_reason(context, j, view, true, true);
            proof {
                assert(nosum_prune_reason@ =~= view.candidate_reason@.push(lower_words).push(
                    upper_words,
                ));
                assert forall|values: spec_fn(DomainId) -> int| !#[trigger] self.is_solution(
                    start.store(),
                    values,
                ) by {
                    if self.is_solution(start.store(), values) {
                        self.lemma_view_sums(view, start.store(), j as int, values);
                        self.lemma_solution_legal(start.store(), values, load);
                        let mask = chosen_mask(self.bins@, values, j as int, view.candidates@);
                        assert(mask.len() == candidate_sizes@.len());
                        let sum = subset_sum(candidate_sizes@, mask);
                        assert(sum == values(load) - packed_sum);
                    }
                }
            }
            return Err(
                Inconsistency::Conflict {
                    conflict_nogood: PropositionalConjunction::new(nosum_prune_reason),
                },
            );
        }
        // NoSum Load Bound Tightening
        // If nosum returns true with only lower bound inputs, adjust the lower bound
        let alpha = context.lower_bound(&load) as i64 - packed_sum;
        let (adjust, below_alpha, b) = nosum_between(candidate_sizes.as_slice(), alpha, alpha);
        if adjust {
            // The reason is the lower bound on the load of the bin and the candidate set
            let nosum_lower_bound_reason = self.bounded_reason(context, j, view, true, false);
            let lower = Predicate::lower_bound(load, clamp(packed_sum + b));
            proof {
                assert forall|values: spec_fn(DomainId) -> int| #[trigger]
                    self.is_solution(start.store(), values) implies lower.holds(
                    values(lower.domain()),
                ) by {
                    self.lemma_view_sums(view, start.store(), j as int, values);
                    self.lemma_solution_legal(start.store(), values, load);
                    let mask = chosen_mask(self.bins@, values, j as int, view.candidates@);
                    assert(mask.len() == candidate_sizes@.len());
                    let sum = subset_sum(candidate_sizes@, mask);
                    assert(sum == values(load) - packed_sum);
                }
            }
            let first_result = self.post(context, lower, &nosum_lower_bound_reason);
            proof {
                assert(nosum_lower_bound_reason@ =~= view.candidate_reason@.push(lower_words));
                if first_result is Ok && !start.store().satisfies(lower) {
                    lemma_new_entry(
                        start.store(),
                        context.store(),
                        lower,
                        ReasonView::Eager(start.explained(nosum_lower_bound_reason@)),
                    );
                    lemma_required_list(
                        start.store(),
                        self.bins@,
                        self.sizes@,
                        j as int,
                        view.required@,
                        self.bins@.len() as int,
                    );
                    assert(candidate_sizes@ == self.candidate_sizes_of(start.store(), j as int));
                }
                self.lemma_posted_explained(
                    &base,
                    start.store().trail_len() as int,
                    start.store(),
                    start.store(),
                    &start,
                    context,
                    j as int,
                    lower,
                    nosum_lower_bound_reason@,
                    first_result,
                );
            }
            match first_result {
                Err(e) => {
                    return Err(e);
                },
                Ok(_) => {},
            }
            proof {
                raised = true;
                sum_below = below_alpha as int;
                sum_above = b as int;
                start.store().lemma_bounds(start.store().trail_len() as int, load);
                context.store().lemma_bounds(context.store().trail_len() as int, load);
                assert forall|v: int| #[trigger] context.store().contains(load, v) implies v
                    >= view.packed_sum + b by {
                    context.store().lemma_extends_shrinks(start.store(), load, v);
                }
                // The upper bound of the load stays.
                let top = start.store().upper(load);
                let least = context.store().lower(load);
                context.store().lemma_extends_shrinks(start.store(), load, least);
                assert(context.store().contains(load, top));
                context.store().lemma_extends_shrinks(
                    start.store(),
                    load,
                    context.store().upper(load),
                );
            }
        }
        let ghost middle = *context;
        proof {
            assert(self.all_explained(
                &base,
                start.store().trail_len() as int,
                middle.store(),
                start.reification_predicates(),
            ));
            context.store().lemma_extends_entails(start.store(), view.candidate_reason@);
            context.store().lemma_bounds(context.store().trail_len() as int, load);
            start.store().lemma_bounds(start.store().trail_len() as int, load);
            assert(middle.store().upper(load) == start.store().upper(load));
            assert(prunes(sizes, alpha0, alpha0) ==> raised);
            assert(raised ==> first_gap_sums(sizes, alpha0, alpha0, sum_below, sum_above)
                && forall|v: int| #[trigger]
                middle.store().contains(load, v) ==> v >= view.packed_sum + sum_above);
        }
        // If nosum returns true with only upper bound inputs, adjust the upper bound
        let beta = context.upper_bound(&load) as i64 - packed_sum;
        let (adjust, a, above_beta) = nosum_between(candidate_sizes.as_slice(), beta, beta);
        if adjust {
            // The reason is the upper bound on the load of the bin and the candidate set
            let nosum_upper_bound_reason = self.bounded_reason(context, j, view, false, true);
            let upper = Predicate::upper_bound(load, clamp(packed_sum + a));
            proof {
                assert forall|values: spec_fn(DomainId) -> int| #[trigger]
                    self.is_solution(middle.store(), values) implies upper.holds(
                    values(upper.domain()),
                ) by {
                    self.lemma_solution_earlier(start.store(), middle.store(), values);
                    self.lemma_view_sums(view, start.store(), j as int, values);
                    self.lemma_solution_legal(middle.store(), values, load);
                    let mask = chosen_mask(self.bins@, values, j as int, view.candidates@);
                    assert(mask.len() == candidate_sizes@.len());
                    let sum = subset_sum(candidate_sizes@, mask);
                    assert(sum == values(load) - packed_sum);
                }
            }
            let result = self.post(context, upper, &nosum_upper_bound_reason);
            proof {
                middle.store().lemma_extends_reflexive();
                assert(nosum_upper_bound_reason@ =~= view.candidate_reason@.push(
                    Predicate::UpperBound {
                        domain_id: load,
                        upper_bound: middle.store().upper(load) as i32,
                    },
                ));
                if result is Ok && !middle.store().satisfies(upper) {
                    lemma_new_entry(
                        middle.store(),
                        context.store(),
                        upper,
                        ReasonView::Eager(middle.explained(nosum_upper_bound_reason@)),
                    );
                    lemma_required_list(
                        start.store(),
                        self.bins@,
                        self.sizes@,
                        j as int,
                        view.required@,
                        self.bins@.len() as int,
                    );
                    assert(candidate_sizes@ == self.candidate_sizes_of(start.store(), j as int));
                }
                self.lemma_posted_explained(
                    &base,
                    start.store().trail_len() as int,
                    start.store(),
                    middle.store(),
                    &middle,
                    context,
                    j as int,
                    upper,
                    nosum_upper_bound_reason@,
                    result,
                );
                context.store().lemma_extends_transitive(middle.store(), start.store());
                context.store().lemma_extends_entails(start.store(), view.candidate_reason@);
                if result is Ok {
                    assert(first_gap_sums(sizes, beta0, beta0, a as int, above_beta as int));
                    assert forall|v: int| #[trigger] context.store().contains(load, v) implies v
                        <= view.packed_sum + a by {}
                    if raised {
                        assert forall|v: int| #[trigger] context.store().contains(load, v) implies v
                            >= view.packed_sum + sum_above by {
                            context.store().lemma_extends_shrinks(middle.store(), load, v);
                        }
                    }
                }
            }
            return result;
        }
        Ok(())
    }

    /// Whether the load of bin `j` is the bin of no item.
    pub open spec fn load_apart(&self, j: int) -> bool {
        forall|i: int| 0 <= i < self.bins().len() ==> #[trigger] self.bins()[i] != self.loads()[j]
    }

    /// What the test on the candidates without one of them does to that
    /// candidate, for each candidate of bin `j`: where the test prunes on
    /// the bounds of the load less the size of the candidate, `after` has
    /// taken the bin from the candidate; where it prunes on the bounds of
    /// the load, `after` has left the candidate no other bin. The bounds
    /// are those of `before`, from which what is packed is taken off.
    spec fn items_pruned_by_nosum(
        &self,
        before: &Assignments,
        after: &Assignments,
        j: int,
        view: &BinView,
        sizes: Seq<i32>,
        n: int,
    ) -> bool {
        forall|t: int|
            0 <= t < n ==> #[trigger] self.item_pruned_by_nosum(before, after, j, view, sizes, t)
    }

    /// What the test on the other candidates does to the candidate `t` of
    /// bin `j`.
    #[verifier::opaque]
    spec fn item_pruned_by_nosum(
        &self,
        before: &Assignments,
        after: &Assignments,
        j: int,
        view: &BinView,
        sizes: Seq<i32>,
        t: int,
    ) -> bool {
        let load = self.loads()[j];
        let alpha = before.lower(load) - view.packed_sum;
        let beta = before.upper(load) - view.packed_sum;
        let bin = self.bins()[view.candidates@[t] as int];
        &&& prunes(sizes.remove(t), alpha - sizes[t], beta - sizes[t]) ==> !after.contains(bin, j)
        &&& prunes(sizes.remove(t), alpha, beta) ==> forall|v: int| #[trigger]
            after.contains(bin, v) ==> v == j
    }

    /// What the test has done to a candidate stays done in a store that
    /// continues the store.
    proof fn lemma_item_stays_pruned(
        &self,
        before: &Assignments,
        middle: &Assignments,
        after: &Assignments,
        j: int,
        view: &BinView,
        sizes: Seq<i32>,
        t: int,
    )
        requires
            after.wf(),
            after.extends(middle),
            self.item_pruned_by_nosum(before, middle, j, view, sizes, t),
        ensures
            self.item_pruned_by_nosum(before, after, j, view, sizes, t),
    {
        reveal(BinPackingPropagator::item_pruned_by_nosum);
        let bin = self.bins()[view.candidates@[t] as int];
        if after.contains(bin, j) {
            after.lemma_extends_shrinks(middle, bin, j);
        }
        assert forall|v: int| #[trigger] after.contains(bin, v) implies middle.contains(bin, v) by {
            after.lemma_extends_shrinks(middle, bin, v);
        }
    }

    /// The candidate `t` of bin `j` is done where the bin was taken from it
    /// if the test asked for that, and the other bins if it asked for that.
    proof fn lemma_item_pruned(
        &self,
        before: &Assignments,
        after: &Assignments,
        j: int,
        view: &BinView,
        sizes: Seq<i32>,
        t: int,
        alpha: int,
        beta: int,
    )
        requires
            alpha == before.lower(self.loads()[j]) - view.packed_sum,
            beta == before.upper(self.loads()[j]) - view.packed_sum,
            prunes(sizes.remove(t), alpha - sizes[t], beta - sizes[t]) ==> !after.contains(
                self.bins()[view.candidates@[t] as int],
                j,
            ),
            prunes(sizes.remove(t), alpha, beta) ==> forall|v: int| #[trigger]
                after.contains(self.bins()[view.candidates@[t] as int], v) ==> v == j,
        ensures
            self.item_pruned_by_nosum(before, after, j, view, sizes, t),
    {
        reveal(BinPackingPropagator::item_pruned_by_nosum);
    }

    /// Rule 9: a candidate with which the other candidates cannot fill bin
    /// `j` to a load within its bounds cannot go to it, and one without
    /// which they cannot must go to it.
    #[verifier::rlimit(100)]
    fn prune_items_by_nosum(
        &self,
        context: &mut PropagationContextMut,
        j: usize,
        view: &BinView,
        candidate_sizes: &Vec<i32>,
        Ghost(origin): Ghost<Assignments>,
    ) -> (r: PropagationStatusCP)
        requires
            self.ready(old(context), j as int),
            origin.wf(),
            old(context).store().extends(&origin),
            self.view_ok(view, &origin, j as int),
            old(context).store().entails(view.candidate_reason@),
            candidate_sizes@ == picked_sizes(self.sizes@, view.candidates@),
        ensures
            final(context).wf(),
            final(context).continues(old(context)),
            r matches Err(e) ==> e.holds_in(final(context).store()),
            self.keeps_solutions(old(context).store(), final(context).store()),
            r is Err ==> self.has_no_solution(old(context).store()),
            r is Ok && self.load_apart(j as int) ==> self.items_pruned_by_nosum(
                old(context).store(),
                final(context).store(),
                j as int,
                view,
                candidate_sizes@,
                view.candidates@.len() as int,
            ),
            self.all_explained(
                &origin,
                old(context).store().trail_len() as int,
                final(context).store(),
                old(context).reification_predicates(),
            ),
            r is Ok && final(context).store().unchanged_since(&origin) ==> forall|t: int|
                0 <= t < candidate_sizes@.len() ==> #[trigger] candidate_untested(
                    candidate_sizes@,
                    origin.lower(self.loads()[j as int]) - view.packed_sum,
                    origin.upper(self.loads()[j as int]) - view.packed_sum,
                    t,
                ),
            (forall|t: int|
                0 <= t < candidate_sizes@.len() ==> #[trigger] candidate_untested(
                    candidate_sizes@,
                    old(context).store().lower(self.loads()[j as int]) - view.packed_sum,
                    old(context).store().upper(self.loads()[j as int]) - view.packed_sum,
                    t,
                )) ==> r is Ok && *final(context) == *old(context),
    {
        proof {
            use_type_invariant(self);
            lemma_picked(self.sizes@, view.required@, self.sizes@.len() as int);
            lemma_picked(self.sizes@, view.candidates@, self.sizes@.len() as int);
            lemma_prefix_monotone(self.sizes@, 0, self.sizes@.len() as int);
            context.store().lemma_extends_reflexive();
        }
        let ghost start = *context;
        let load = self.loads[j];
        let value = j as i32;
        let packed_sum = view.packed_sum as i64;
        let mut c: usize = 0;
        while c < view.candidates.len()
            invariant
                self.valid(),
                self.ready(context, j as int),
                origin.wf(),
                start.wf(),
                start.store().extends(&origin),
                self.view_ok(view, &origin, j as int),
                candidate_sizes@ == picked_sizes(self.sizes@, view.candidates@),
                non_increasing(candidate_sizes@),
                non_negative(candidate_sizes@),
                total_size(candidate_sizes@) <= i32::MAX,
                c <= view.candidates.len(),
                context.wf(),
                start == *old(context),
                context.continues(&start),
                context.store().entails(view.candidate_reason@),
                self.keeps_solutions(start.store(), context.store()),
                load == self.loads@[j as int],
                value == j,
                packed_sum == view.packed_sum,
                0 <= packed_sum <= i32::MAX,
                context.reification_predicates() == start.reification_predicates(),
                self.all_explained(
                    &origin,
                    start.store().trail_len() as int,
                    context.store(),
                    start.reification_predicates(),
                ),
                forall|t: int|
                    0 <= t < c && context.store().unchanged_since(&origin)
                        ==> #[trigger] candidate_untested(
                        candidate_sizes@,
                        origin.lower(load) - view.packed_sum,
                        origin.upper(load) - view.packed_sum,
                        t,
                    ),
                (forall|t: int|
                    0 <= t < candidate_sizes@.len() ==> #[trigger] candidate_untested(
                        candidate_sizes@,
                        start.store().lower(load) - view.packed_sum,
                        start.store().upper(load) - view.packed_sum,
                        t,
                    )) ==> *context == start,
                self.load_apart(j as int) ==> context.store().lower(load) == start.store().lower(
                    load,
                ) && context.store().upper(load) == start.store().upper(load)
                    && self.items_pruned_by_nosum(
                    start.store(),
                    context.store(),
                    j as int,
                    view,
                    candidate_sizes@,
                    c as int,
                ),
            decreases view.candidates.len() - c,
        {
            let ghost entered = *context;
            proof {
                context.store().lemma_extends_reflexive();
            }
            // Sizes of the candidates without the current candidate
            let current_sizes = without(candidate_sizes, c);
            let size = candidate_sizes[c] as i64;
            let i = view.candidates[c];
            assert(self.bins()[i as int].index() < context.store().num_domains());
            assert(self.loads()[j as int].index() < context.store().num_domains());
            proof {
                context.store().lemma_bounds(context.store().trail_len() as int, load);
            }
            proof {
                assert((forall|t: int|
                    0 <= t < candidate_sizes@.len() ==> #[trigger] candidate_untested(
                        candidate_sizes@,
                        start.store().lower(load) - view.packed_sum,
                        start.store().upper(load) - view.packed_sum,
                        t,
                    )) ==> candidate_untested(
                    candidate_sizes@,
                    start.store().lower(load) - view.packed_sum,
                    start.store().upper(load) - view.packed_sum,
                    c as int,
                ));
            }
            // If item has to be eliminated
            let (eliminate, _, _) = nosum_between(
                current_sizes.as_slice(),
                context.lower_bound(&load) as i64 - packed_sum - size,
                context.upper_bound(&load) as i64 - packed_sum - size,
            );
            let ghost eliminated = eliminate;
            let ghost mut grown = false;
            if eliminate {
                let ghost before = *context;
                // The reason is the bounds on the load of the bin and the candidate set
                let nosum_elimination_reason = self.bounded_reason(context, j, view, true, true);
                let removal = Predicate::not_equal(self.bins[i], value);
                proof {
                    assert forall|values: spec_fn(DomainId) -> int| #[trigger]
                        self.is_solution(before.store(), values) implies removal.holds(
                        values(removal.domain()),
                    ) by {
                        before.store().lemma_extends_transitive(start.store(), &origin);
                        self.lemma_solution_earlier(&origin, before.store(), values);
                        self.lemma_view_sums(view, &origin, j as int, values);
                        self.lemma_solution_legal(before.store(), values, load);
                        let mask = chosen_mask(self.bins@, values, j as int, view.candidates@);
                        lemma_chosen_removed(
                            candidate_sizes@,
                            mask,
                            c as int,
                            candidate_sizes@.len() - 1,
                        );
                        let rest = subset_sum(current_sizes@, mask.remove(c as int));
                        assert(mask.remove(c as int).len() == current_sizes@.len());
                        if values(self.bins@[i as int]) == j {
                            assert(mask[c as int]);
                            assert(rest == values(load) - packed_sum - size);
                        }
                    }
                }
                // Remove bin j from candidate item domain
                let result = self.post(context, removal, &nosum_elimination_reason);
                proof {
                    before.store().lemma_extends_transitive(start.store(), &origin);
                    before.store().lemma_extends_reflexive();
                    assert(self.bins()[i as int] == removal.domain());
                    assert(nosum_elimination_reason@ =~= view.candidate_reason@.push(
                        Predicate::LowerBound {
                            domain_id: load,
                            lower_bound: before.store().lower(load) as i32,
                        },
                    ).push(
                        Predicate::UpperBound {
                            domain_id: load,
                            upper_bound: before.store().upper(load) as i32,
                        },
                    ));
                    if result is Ok && !before.store().satisfies(removal) {
                        lemma_new_entry(
                            before.store(),
                            context.store(),
                            removal,
                            ReasonView::Eager(before.explained(nosum_elimination_reason@)),
                        );
                    }
                    self.lemma_posted_explained(
                        &origin,
                        start.store().trail_len() as int,
                        &origin,
                        before.store(),
                        &before,
                        context,
                        j as int,
                        removal,
                        nosum_elimination_reason@,
                        result,
                    );
                    context.store().lemma_extends_transitive(before.store(), start.store());
                    context.store().lemma_extends_entails(before.store(), view.candidate_reason@);
                    if result is Ok && self.load_apart(j as int) {
                        lemma_same_bounds(context.store(), before.store(), load);
                    }
                    if result is Ok && before.store().contains(self.bins()[i as int], j as int) {
                        assert(!before.store().satisfies(removal));
                        assert(context.store().trail_len() > before.store().trail_len());
                    }
                }
                match result {
                    Err(e) => {
                        return Err(e);
                    },
                    Ok(_) => {},
                }
            }
            let ghost middle = *context;
            proof {
                context.store().lemma_bounds(context.store().trail_len() as int, load);
                context.store().lemma_extends_reflexive();
            }
            // If item has to be committed
            let (commit, _, _) = nosum_between(
                current_sizes.as_slice(),
                context.lower_bound(&load) as i64 - packed_sum,
                context.upper_bound(&load) as i64 - packed_sum,
            );
            let ghost committed = commit;
            if commit {
                let ghost before = *context;
                // The reason is the bounds on the load of the bin and the candidate set
                let nosum_commitment_reason = self.bounded_reason(context, j, view, true, true);
                let commitment = Predicate::equal(self.bins[i], value);
                proof {
                    assert forall|values: spec_fn(DomainId) -> int| #[trigger]
                        self.is_solution(before.store(), values) implies commitment.holds(
                        values(commitment.domain()),
                    ) by {
                        before.store().lemma_extends_transitive(start.store(), &origin);
                        self.lemma_solution_earlier(&origin, before.store(), values);
                        self.lemma_view_sums(view, &origin, j as int, values);
                        self.lemma_solution_legal(before.store(), values, load);
                        let mask = chosen_mask(self.bins@, values, j as int, view.candidates@);
                        lemma_chosen_removed(
                            candidate_sizes@,
                            mask,
                            c as int,
                            candidate_sizes@.len() - 1,
                        );
                        let rest = subset_sum(current_sizes@, mask.remove(c as int));
                        assert(mask.remove(c as int).len() == current_sizes@.len());
                        if values(self.bins@[i as int]) != j {
                            assert(!mask[c as int]);
                            assert(rest == values(load) - packed_sum);
                        }
                    }
                }
                // Assign bin j to candidate item domain
                let result = self.post(context, commitment, &nosum_commitment_reason);
                proof {
                    before.store().lemma_extends_transitive(start.store(), &origin);
                    before.store().lemma_extends_reflexive();
                    assert(self.bins()[i as int] == commitment.domain());
                    assert(nosum_commitment_reason@ =~= view.candidate_reason@.push(
                        Predicate::LowerBound {
                            domain_id: load,
                            lower_bound: before.store().lower(load) as i32,
                        },
                    ).push(
                        Predicate::UpperBound {
                            domain_id: load,
                            upper_bound: before.store().upper(load) as i32,
                        },
                    ));
                    if result is Ok && !before.store().satisfies(commitment) {
                        lemma_new_entry(
                            before.store(),
                            context.store(),
                            commitment,
                            ReasonView::Eager(before.explained(nosum_commitment_reason@)),
                        );
                    }
                    self.lemma_posted_explained(
                        &origin,
                        start.store().trail_len() as int,
                        &origin,
                        before.store(),
                        &before,
                        context,
                        j as int,
                        commitment,
                        nosum_commitment_reason@,
                        result,
                    );
                    context.store().lemma_extends_transitive(before.store(), start.store());
                    context.store().lemma_extends_entails(before.store(), view.candidate_reason@);
                    if result is Ok && self.load_apart(j as int) {
                        lemma_same_bounds(context.store(), before.store(), load);
                    }
                    let bin = self.bins()[i as int];
                    if result is Ok && before.store().contains(bin, j as int)
                        && !before.store().is_fixed(bin) {
                        before.store().lemma_bounds(before.store().trail_len() as int, bin);
                        assert(before.store().contains(bin, before.store().lower(bin)));
                        assert(before.store().contains(bin, before.store().upper(bin)));
                        assert(!before.store().satisfies(commitment));
                        assert(context.store().trail_len() > before.store().trail_len());
                    }
                }
                match result {
                    Err(e) => {
                        return Err(e);
                    },
                    Ok(_) => {},
                }
            }
            proof {
                context.store().lemma_extends_reflexive();
                entered.store().lemma_extends_reflexive();
                context.store().lemma_extends_transitive(middle.store(), entered.store());
                entered.store().lemma_extends_transitive(start.store(), &origin);
                if context.store().unchanged_since(&origin) {
                    let any = Predicate::LowerBound {
                        domain_id: DomainId { id: 0 },
                        lower_bound: 0,
                    };
                    let bin = self.bins()[i as int];
                    context.store().lemma_unchanged_between(entered.store(), &origin);
                    context.store().lemma_unchanged_between(middle.store(), entered.store());
                    entered.store().lemma_unchanged(&origin, any);
                    middle.store().lemma_unchanged(entered.store(), any);
                    assert(view.candidates@.contains(i as usize));
                    assert(origin.contains(bin, j as int) && !origin.is_fixed(bin));
                    assert(!eliminated);
                    assert(!committed);
                    assert(candidate_untested(
                        candidate_sizes@,
                        origin.lower(load) - view.packed_sum,
                        origin.upper(load) - view.packed_sum,
                        c as int,
                    ));
                }
            }
            proof {
                if self.load_apart(j as int) {
                    let bin = self.bins()[view.candidates@[c as int] as int];
                    assert(eliminated ==> !context.store().contains(bin, j as int)) by {
                        if eliminated && context.store().contains(bin, j as int) {
                            context.store().lemma_extends_shrinks(middle.store(), bin, j as int);
                        }
                    }
                    self.lemma_item_pruned(
                        start.store(),
                        context.store(),
                        j as int,
                        view,
                        candidate_sizes@,
                        c as int,
                        start.store().lower(load) - view.packed_sum,
                        start.store().upper(load) - view.packed_sum,
                    );
                    assert forall|t: int| 0 <= t < c + 1 implies #[trigger] self.item_pruned_by_nosum(
                        start.store(),
                        context.store(),
                        j as int,
                        view,
                        candidate_sizes@,
                        t,
                    ) by {
                        if t < c {
                            self.lemma_item_stays_pruned(
                                start.store(),
                                entered.store(),
                                context.store(),
                                j as int,
                                view,
                                candidate_sizes@,
                                t,
                            );
                        }
                    }
                }
            }
            c += 1;
        }
        Ok(())
    }

    /// Applies the rules to bin `j`, in their order.
    fn propagate_bin(&self, context: &mut PropagationContextMut, j: usize) -> (r:
        PropagationStatusCP)
        requires
            self.ready(old(context), j as int),
        ensures
            final(context).wf(),
            final(context).continues(old(context)),
            r matches Err(e) ==> e.holds_in(final(context).store()),
            self.keeps_solutions(old(context).store(), final(context).store()),
            r is Err ==> self.has_no_solution(old(context).store()),
            r is Ok && self.loads().len() == 1 ==> forall|v: int|
                final(context).store().contains(self.loads()[0], v) ==> v == total_size(
                    self.sizes(),
                ),
            r is Ok && final(context).store().unchanged_since(old(context).store())
                ==> self.bin_stable(old(context).store(), j as int),
            self.stable(old(context).store()) ==> r is Ok
                && final(context).store().unchanged_since(old(context).store()),
            r is Ok ==> self.coherent_with(old(context).store(), final(context).store(), j as int),
            r is Ok && self.load_apart(j as int) ==> self.eliminated_from(
                old(context).store(),
                final(context).store(),
                j as int,
            ),
            r is Ok ==> forall|v: int| #[trigger]
                final(context).store().contains(self.loads()[j as int], v) ==> v >= required_sum(
                    old(context).store(),
                    self.bins(),
                    self.sizes(),
                    j as int,
                    self.bins().len() as int,
                ),
            self.all_explained(
                old(context).store(),
                old(context).store().trail_len() as int,
                final(context).store(),
                old(context).reification_predicates(),
            ),
            r is Ok ==> exists|view_store: Assignments|
                {
                    &&& view_store.wf()
                    &&& #[trigger] view_store.extends(old(context).store())
                    &&& final(context).store().extends(&view_store)
                    &&& (forall|v: int|
                        final(context).store().contains(
                            self.loads()[j as int],
                            v,
                        ) ==> required_sum(
                            &view_store,
                            self.bins(),
                            self.sizes(),
                            j as int,
                            self.bins().len() as int,
                        ) <= v <= required_sum(
                            &view_store,
                            self.bins(),
                            self.sizes(),
                            j as int,
                            self.bins().len() as int,
                        ) + candidate_sum(
                            &view_store,
                            self.bins(),
                            self.sizes(),
                            j as int,
                            self.bins().len() as int,
                        ))
                },
    {
        proof {
            use_type_invariant(self);
            context.store().lemma_extends_reflexive();
        }
        let ghost start = *context;
        let ghost settled = self.stable(start.store());
        let view = self.view_of(context, j);
        proof {
            if settled {
                let n = self.bins@.len() as int;
                assert(self.bin_stable(start.store(), j as int));
                lemma_required_list(start.store(), self.bins@, self.sizes@, j as int, view.required@, n);
                lemma_candidate_list(
                    start.store(),
                    self.bins@,
                    self.sizes@,
                    |x: DomainId| 0int,
                    j as int,
                    view.candidates@,
                    n,
                );
            }
        }
        let load_result = self.maintain_load(context, j, &view);
        match load_result {
            Err(e) => {
                return Err(e);
            },
            Ok(_) => {},
        }
        let ghost after_load = *context;
        proof {
            let n = self.bins@.len() as int;
            lemma_required_list(start.store(), self.bins@, self.sizes@, j as int, view.required@, n);
            lemma_candidate_list(
                start.store(),
                self.bins@,
                self.sizes@,
                |x: DomainId| 0int,
                j as int,
                view.candidates@,
                n,
            );
        }
        proof {
            if settled {
                self.lemma_bin_stable(start.store(), after_load.store(), j as int);
            }
        }
        let coherence_result = self.keep_coherence(context, j);
        proof {
            self.lemma_explained_chain(
                start.store(),
                after_load.store(),
                after_load.store(),
                context.store(),
                start.store().trail_len() as int,
                start.reification_predicates(),
            );
        }
        match coherence_result {
            Err(e) => {
                proof {
                    context.store().lemma_extends_transitive(after_load.store(), start.store());
                }
                return Err(e);
            },
            Ok(_) => {},
        }
        proof {
            context.store().lemma_extends_transitive(after_load.store(), start.store());
        }
        let ghost after_coherence = *context;
        let view = self.view_of(context, j);
        proof {
            if settled {
                after_coherence.store().lemma_unchanged_transitive(
                    after_load.store(),
                    start.store(),
                );
                self.lemma_bin_stable(start.store(), after_coherence.store(), j as int);
            }
        }
        let elimination_result = self.eliminate_single_items(context, j, &view);
        proof {
            self.lemma_explained_chain(
                start.store(),
                after_coherence.store(),
                after_coherence.store(),
                context.store(),
                start.store().trail_len() as int,
                start.reification_predicates(),
            );
        }
        match elimination_result {
            Err(e) => {
                proof {
                    context.store().lemma_extends_transitive(
                        after_coherence.store(),
                        start.store(),
                    );
                }
                return Err(e);
            },
            Ok(_) => {},
        }
        proof {
            context.store().lemma_extends_transitive(after_coherence.store(), start.store());
            if self.load_apart(j as int) {
                // The rules before have changed the load alone, so that the items are
                // what they were.
                let n = self.bins@.len() as int;
                let load = self.loads()[j as int];
                assert forall|t: int, v: int| 0 <= t < n implies (#[trigger] start.store().contains(
                    self.bins()[t],
                    v,
                ) <==> after_coherence.store().contains(self.bins()[t], v)) by {
                    assert(self.bins()[t] != load);
                    assert(after_load.store().contains(self.bins()[t], v)
                        <==> start.store().contains(self.bins()[t], v));
                    assert(after_coherence.store().contains(self.bins()[t], v)
                        <==> after_load.store().contains(self.bins()[t], v));
                }
                lemma_required_same(
                    start.store(),
                    after_coherence.store(),
                    self.bins@,
                    self.sizes@,
                    j as int,
                    n,
                );
                lemma_required_list(
                    after_coherence.store(),
                    self.bins@,
                    self.sizes@,
                    j as int,
                    view.required@,
                    n,
                );
                start.store().lemma_bounds(start.store().trail_len() as int, load);
                after_coherence.store().lemma_bounds(
                    after_coherence.store().trail_len() as int,
                    load,
                );
                after_coherence.store().lemma_extends_shrinks(
                    start.store(),
                    load,
                    after_coherence.store().upper(load),
                );
                assert forall|i: int|
                    0 <= i < n && may_take(start.store(), #[trigger] self.bins()[i], j as int)
                        && self.sizes()[i] > start.store().upper(load) - required_sum(
                        start.store(),
                        self.bins(),
                        self.sizes(),
                        j as int,
                        n,
                    ) implies !context.store().contains(self.bins()[i], j as int) by {
                    assert(after_coherence.store().contains(self.bins()[i], j as int));
                    assert(view.candidates@.contains(i as usize));
                    let t = choose|t: int|
                        0 <= t < view.candidates@.len() && view.candidates@[t] == i as usize;
                    assert(!context.store().contains(
                        self.bins()[view.candidates@[t] as int],
                        j as int,
                    ));
                }
                assert(self.eliminated_from(start.store(), context.store(), j as int));
            }
        }
        let ghost after_elimination = *context;
        let view = self.view_of(context, j);
        proof {
            if settled {
                assert(after_elimination == after_coherence);
            }
        }
        let commitment_result = self.commit_single_items(context, j, &view);
        proof {
            self.lemma_explained_chain(
                start.store(),
                after_elimination.store(),
                after_elimination.store(),
                context.store(),
                start.store().trail_len() as int,
                start.reification_predicates(),
            );
        }
        match commitment_result {
            Err(e) => {
                proof {
                    context.store().lemma_extends_transitive(
                        after_elimination.store(),
                        start.store(),
                    );
                }
                return Err(e);
            },
            Ok(_) => {},
        }
        proof {
            context.store().lemma_extends_transitive(after_elimination.store(), start.store());
        }
        let ghost after_commitment = *context;
        let view = self.view_of(context, j);
        let candidate_sizes = self.candidate_sizes(&view);
        proof {
            if settled {
                assert(after_commitment == after_coherence);
                lemma_required_list(
                    after_commitment.store(),
                    self.bins@,
                    self.sizes@,
                    j as int,
                    view.required@,
                    self.bins@.len() as int,
                );
                assert(candidate_sizes@ == self.candidate_sizes_of(
                    after_commitment.store(),
                    j as int,
                ));
                assert(self.untested(after_commitment.store(), j as int));
            }
        }
        proof {
            self.lemma_coherent_with(
                start.store(),
                after_load.store(),
                after_coherence.store(),
                after_commitment.store(),
                j as int,
            );
        }
        let pruning_result = self.prune_by_nosum(
            context,
            j,
            &view,
            &candidate_sizes,
            Ghost(*start.store()),
        );
        proof {
            self.lemma_explained_chain(
                start.store(),
                start.store(),
                after_commitment.store(),
                context.store(),
                start.store().trail_len() as int,
                start.reification_predicates(),
            );
        }
        match pruning_result {
            Err(e) => {
                proof {
                    context.store().lemma_extends_transitive(
                        after_commitment.store(),
                        start.store(),
                    );
                }
                return Err(e);
            },
            Ok(_) => {},
        }
        proof {
            context.store().lemma_extends_transitive(after_commitment.store(), start.store());
        }
        let ghost after_pruning = *context;
        let result = self.prune_items_by_nosum(
            context,
            j,
            &view,
            &candidate_sizes,
            Ghost(*after_commitment.store()),
        );
        proof {
            self.lemma_explained_chain(
                start.store(),
                after_commitment.store(),
                after_pruning.store(),
                context.store(),
                start.store().trail_len() as int,
                start.reification_predicates(),
            );
            context.store().lemma_extends_transitive(after_pruning.store(), start.store());
            if result is Ok && self.load_apart(j as int) {
                context.store().lemma_extends_transitive(
                    after_pruning.store(),
                    after_commitment.store(),
                );
                context.store().lemma_extends_transitive(
                    after_commitment.store(),
                    after_elimination.store(),
                );
                assert forall|i: int|
                    0 <= i < self.bins().len() && may_take(
                        start.store(),
                        #[trigger] self.bins()[i],
                        j as int,
                    ) && self.sizes()[i] > start.store().upper(self.loads()[j as int])
                        - required_sum(
                        start.store(),
                        self.bins(),
                        self.sizes(),
                        j as int,
                        self.bins().len() as int,
                    ) implies !context.store().contains(self.bins()[i], j as int) by {
                    if context.store().contains(self.bins()[i], j as int) {
                        context.store().lemma_extends_shrinks(
                            after_elimination.store(),
                            self.bins()[i],
                            j as int,
                        );
                    }
                }
            }
            if result is Ok {
                context.store().lemma_extends_transitive(
                    after_pruning.store(),
                    after_commitment.store(),
                );
                context.store().lemma_extends_transitive(
                    after_commitment.store(),
                    after_elimination.store(),
                );
                context.store().lemma_extends_transitive(
                    after_elimination.store(),
                    after_coherence.store(),
                );
                self.lemma_coherent_with(
                    start.store(),
                    after_load.store(),
                    after_coherence.store(),
                    context.store(),
                    j as int,
                );
            }
            if result is Ok && context.store().unchanged_since(start.store()) {
                // Nothing was posted, so that each rule was applied to the domains that
                // the store has had all along.
                assert(after_load.store().unchanged_since(start.store()));
                assert(after_coherence.store().unchanged_since(after_load.store()));
                assert(after_elimination.store().unchanged_since(after_coherence.store()));
                assert(after_commitment.store().unchanged_since(after_elimination.store()));
                after_coherence.store().lemma_unchanged_transitive(
                    after_load.store(),
                    start.store(),
                );
                after_elimination.store().lemma_unchanged_transitive(
                    after_coherence.store(),
                    start.store(),
                );
                self.lemma_bin_stable(after_load.store(), start.store(), j as int);
                self.lemma_bin_stable(after_coherence.store(), start.store(), j as int);
                self.lemma_bin_stable(after_elimination.store(), start.store(), j as int);
                assert(after_pruning.store().unchanged_since(after_commitment.store()));
                context.store().lemma_unchanged_between(
                    after_pruning.store(),
                    after_commitment.store(),
                );
                after_commitment.store().lemma_unchanged_transitive(
                    after_elimination.store(),
                    start.store(),
                );
                lemma_required_list(
                    after_commitment.store(),
                    self.bins@,
                    self.sizes@,
                    j as int,
                    view.required@,
                    self.bins@.len() as int,
                );
                assert(candidate_sizes@ == self.candidate_sizes_of(
                    after_commitment.store(),
                    j as int,
                ));
                assert(self.untested(after_commitment.store(), j as int));
                self.lemma_bin_stable(after_commitment.store(), start.store(), j as int);
            }
            if result is Ok {
                let view_store = *start.store();
                context.store().lemma_extends_transitive(after_load.store(), start.store());
                assert forall|v: int|
                    context.store().contains(self.loads()[j as int], v) implies required_sum(
                    &view_store,
                    self.bins(),
                    self.sizes(),
                    j as int,
                    self.bins().len() as int,
                ) <= v <= required_sum(
                    &view_store,
                    self.bins(),
                    self.sizes(),
                    j as int,
                    self.bins().len() as int,
                ) + candidate_sum(
                    &view_store,
                    self.bins(),
                    self.sizes(),
                    j as int,
                    self.bins().len() as int,
                ) by {
                    context.store().lemma_extends_transitive(
                        after_pruning.store(),
                        after_load.store(),
                    );
                    context.store().lemma_monotone(
                        after_load.store().trail_len() as int,
                        context.store().trail_len() as int,
                        self.loads()[j as int],
                        v,
                    );
                    assert(after_load.store().contains(self.loads()[j as int], v));
                }
                assert(view_store.extends(start.store()));
            }
            if result is Ok && self.loads().len() == 1 {
                assert forall|v: int|
                    context.store().contains(self.loads()[0], v) implies v == total_size(
                    self.sizes(),
                ) by {
                    context.store().lemma_extends_transitive(
                        after_pruning.store(),
                        after_coherence.store(),
                    );
                    context.store().lemma_monotone(
                        after_coherence.store().trail_len() as int,
                        context.store().trail_len() as int,
                        self.loads()[0],
                        v,
                    );
                    assert(after_coherence.store().contains(self.loads()[0], v));
                }
            }
        }
        result
    }
}

/// Whether the test on the sizes without the one at position `t` prunes
/// neither on the bounds nor on the bounds less that size.
pub open spec fn candidate_untested(sizes: Seq<i32>, alpha: int, beta: int, t: int) -> bool {
    !prunes(sizes.remove(t), alpha - sizes[t], beta - sizes[t]) && !prunes(
        sizes.remove(t),
        alpha,
        beta,
    )
}

/// The positions of the first `n` items that are free to go to bin `j` or
/// elsewhere in `store`, in their order.
pub open spec fn candidate_list(store: &Assignments, bins: Seq<DomainId>, j: int, n: int) -> Seq<
    usize,
>
    decreases n,
{
    if n <= 0 {
        seq![]
    } else {
        let rest = candidate_list(store, bins, j, n - 1);
        if may_take(store, bins[n - 1], j) {
            rest.push((n - 1) as usize)
        } else {
            rest
        }
    }
}

/// Stores with the same domains have the same candidates for a bin.
pub proof fn lemma_candidate_list_same(
    first: &Assignments,
    second: &Assignments,
    bins: Seq<DomainId>,
    j: int,
    n: int,
)
    requires
        forall|x: DomainId, v: int| #[trigger] first.contains(x, v) <==> second.contains(x, v),
        forall|x: DomainId| #[trigger] first.is_fixed(x) == second.is_fixed(x),
    ensures
        candidate_list(first, bins, j, n) == candidate_list(second, bins, j, n),
    decreases n,
{
    if n > 0 {
        lemma_candidate_list_same(first, second, bins, j, n - 1);
        let x = bins[n - 1];
        assert(first.contains(x, j) <==> second.contains(x, j));
        assert(first.is_fixed(x) == second.is_fixed(x));
    }
}

/// For each of the first `n` items that `store` has fixed to bin `j`, in
/// their order, that its bin is `j`.
pub open spec fn required_words(store: &Assignments, bins: Seq<DomainId>, j: int, n: int) -> Seq<
    Predicate,
>
    decreases n,
{
    if n <= 0 {
        seq![]
    } else {
        let rest = required_words(store, bins, j, n - 1);
        if fixed_to(store, bins[n - 1], j) {
            rest.push(Predicate::Equal { domain_id: bins[n - 1], equality_constant: j as i32 })
        } else {
            rest
        }
    }
}

/// For each of the first `n` items that cannot go to bin `j` in `store`, in
/// their order, that its bin is not `j`.
pub open spec fn excluded_words(store: &Assignments, bins: Seq<DomainId>, j: int, n: int) -> Seq<
    Predicate,
>
    decreases n,
{
    if n <= 0 {
        seq![]
    } else {
        let rest = excluded_words(store, bins, j, n - 1);
        if !store.contains(bins[n - 1], j) {
            rest.push(Predicate::NotEqual { domain_id: bins[n - 1], not_equal_constant: j as i32 })
        } else {
            rest
        }
    }
}

/// The description of what may go to bin `j`: the items that cannot go to
/// it, and then the items that are fixed to it.
pub open spec fn candidate_words(store: &Assignments, bins: Seq<DomainId>, j: int) -> Seq<
    Predicate,
> {
    excluded_words(store, bins, j, bins.len() as int) + required_words(
        store,
        bins,
        j,
        bins.len() as int,
    )
}

/// The upper bounds, or the lower bounds, of the first `k` loads without
/// the load of bin `j`, in their order.
pub open spec fn other_bounds_words(
    store: &Assignments,
    loads: Seq<DomainId>,
    j: int,
    upper: bool,
    k: int,
) -> Seq<Predicate>
    decreases k,
{
    if k <= 0 {
        seq![]
    } else {
        let rest = other_bounds_words(store, loads, j, upper, k - 1);
        if k - 1 == j {
            rest
        } else if upper {
            rest.push(
                Predicate::UpperBound {
                    domain_id: loads[k - 1],
                    upper_bound: store.upper(loads[k - 1]) as i32,
                },
            )
        } else {
            rest.push(
                Predicate::LowerBound {
                    domain_id: loads[k - 1],
                    lower_bound: store.lower(loads[k - 1]) as i32,
                },
            )
        }
    }
}

/// In a store that continues another the upper bounds of the other loads
/// sum to no more, and their lower bounds to no less.
pub proof fn lemma_other_bounds_monotone(
    earlier: &Assignments,
    later: &Assignments,
    loads: Seq<DomainId>,
    j: int,
    k: int,
)
    requires
        earlier.wf(),
        later.wf(),
        later.extends(earlier),
        0 <= k <= loads.len(),
        forall|i: int| 0 <= i < loads.len() ==> earlier.has(#[trigger] loads[i]),
    ensures
        other_bounds_sum(later, loads, j, true, k) <= other_bounds_sum(earlier, loads, j, true, k),
        other_bounds_sum(later, loads, j, false, k) >= other_bounds_sum(
            earlier,
            loads,
            j,
            false,
            k,
        ),
    decreases k,
{
    if k > 0 {
        lemma_other_bounds_monotone(earlier, later, loads, j, k - 1);
        let x = loads[k - 1];
        assert(earlier.has(x));
        later.lemma_bounds(later.trail_len() as int, x);
        earlier.lemma_bounds(earlier.trail_len() as int, x);
        later.lemma_extends_shrinks(earlier, x, later.upper(x));
        later.lemma_extends_shrinks(earlier, x, later.lower(x));
    }
}

/// Stores with the same bounds have the same sums of the bounds of the
/// other loads.
pub proof fn lemma_other_bounds_same(
    first: &Assignments,
    second: &Assignments,
    loads: Seq<DomainId>,
    j: int,
    upper: bool,
    k: int,
)
    requires
        forall|x: DomainId| #[trigger] second.lower(x) == first.lower(x),
        forall|x: DomainId| #[trigger] second.upper(x) == first.upper(x),
    ensures
        other_bounds_sum(first, loads, j, upper, k) == other_bounds_sum(second, loads, j, upper, k),
    decreases k,
{
    if k > 0 {
        lemma_other_bounds_same(first, second, loads, j, upper, k - 1);
    }
}

/// The sum of the upper bounds, or of the lower bounds, of the first `k`
/// loads without the load of bin `j`.
pub open spec fn other_bounds_sum(
    store: &Assignments,
    loads: Seq<DomainId>,
    j: int,
    upper: bool,
    k: int,
) -> int
    decreases k,
{
    if k <= 0 {
        0
    } else {
        other_bounds_sum(store, loads, j, upper, k - 1) + if k - 1 == j {
            0
        } else if upper {
            store.upper(loads[k - 1])
        } else {
            store.lower(loads[k - 1])
        }
    }
}

fn sum_of_sizes(sizes: &Vec<i32>) -> (r: i32)
    requires
        non_negative(sizes@),
        total_size(sizes@) <= i32::MAX,
    ensures
        r == total_size(sizes@),
{
    let mut sum: i32 = 0;
    let mut i: usize = 0;
    while i < sizes.len()
        invariant
            non_negative(sizes@),
            total_size(sizes@) <= i32::MAX,
            i <= sizes.len(),
            sum == prefix_sum(sizes@, i as int),
        decreases sizes.len() - i,
    {
        proof {
            lemma_prefix_monotone(sizes@, i + 1, sizes@.len() as int);
        }
        sum += sizes[i];
        i += 1;
    }
    sum
}

/// A variable with the same values in two stores has the same bounds in
/// them.
proof fn lemma_same_bounds(first: &Assignments, second: &Assignments, x: DomainId)
    requires
        first.wf(),
        second.wf(),
        first.has(x),
        second.has(x),
        forall|v: int| first.contains(x, v) <==> second.contains(x, v),
    ensures
        first.lower(x) == second.lower(x),
        first.upper(x) == second.upper(x),
{
    first.lemma_bounds(first.trail_len() as int, x);
    second.lemma_bounds(second.trail_len() as int, x);
    assert(second.contains(x, first.lower(x)));
    assert(second.contains(x, first.upper(x)));
    assert(first.contains(x, second.lower(x)));
    assert(first.contains(x, second.upper(x)));
}

/// The sizes without the one at position `c`.
#[verifier::rlimit(50)]
fn without(sizes: &Vec<i32>, c: usize) -> (r: Vec<i32>)
    requires
        c < sizes.len(),
        non_increasing(sizes@),
        non_negative(sizes@),
        total_size(sizes@) <= i32::MAX,
    ensures
        r@ == sizes@.remove(c as int),
        non_increasing(r@),
        non_negative(r@),
        total_size(r@) == total_size(sizes@) - sizes@[c as int],
{
    let mut out: Vec<i32> = Vec::new();
    let mut i: usize = 0;
    while i < sizes.len()
        invariant
            c < sizes.len(),
            i <= sizes.len(),
            out@ == if i <= c {
                sizes@.take(i as int)
            } else {
                sizes@.take(i as int).remove(c as int)
            },
        decreases sizes.len() - i,
    {
        if i != c {
            out.push(sizes[i]);
        }
        proof {
            let next = sizes@.take(i + 1);
            assert(next =~= sizes@.take(i as int).push(sizes@[i as int]));
            if i < c {
            } else if i == c {
                assert(next.remove(c as int) =~= sizes@.take(i as int));
            } else {
                assert(next.remove(c as int) =~= sizes@.take(i as int).remove(c as int).push(
                    sizes@[i as int],
                ));
            }
        }
        i += 1;
    }
    proof {
        assert(sizes@.take(i as int) =~= sizes@);
        lemma_removed(sizes@, c as int, sizes@.len() - 1);
        let rest = sizes@.remove(c as int);
        assert forall|a: int, b: int| 0 <= a <= b < rest.len() implies rest[a] >= rest[b] by {
            let a0 = if a < c {
                a
            } else {
                a + 1
            };
            let b0 = if b < c {
                b
            } else {
                b + 1
            };
            assert(sizes@[a0] >= sizes@[b0]);
        }
    }
    out
}

/// The sum of the first `k` sizes after the size at `c` was removed.
proof fn lemma_removed(sizes: Seq<i32>, c: int, k: int)
    requires
        0 <= c < sizes.len(),
        0 <= k <= sizes.len() - 1,
    ensures
        prefix_sum(sizes.remove(c), k) == if k <= c {
            prefix_sum(sizes, k)
        } else {
            prefix_sum(sizes, k + 1) - sizes[c]
        },
    decreases k,
{
    if k > 0 {
        lemma_removed(sizes, c, k - 1);
        assert(sizes.remove(c)[k - 1] == if k - 1 < c {
            sizes[k - 1]
        } else {
            sizes[k]
        });
        assert(prefix_sum(sizes, k + 1) == prefix_sum(sizes, k) + sizes[k]);
        assert(prefix_sum(sizes, k) == prefix_sum(sizes, k - 1) + sizes[k - 1]);
    }
}

proof fn lemma_picked_same(sizes: Seq<i32>, before: Seq<usize>, i: usize)
    ensures
        picked_sum(sizes, before.push(i), before.len() as int) == picked_sum(
            sizes,
            before,
            before.len() as int,
        ),
{
    lemma_picked_take(sizes, before, before.push(i), before.len() as int);
}

proof fn lemma_picked_take(sizes: Seq<i32>, before: Seq<usize>, after: Seq<usize>, t: int)
    requires
        0 <= t <= before.len() <= after.len(),
        forall|k: int| 0 <= k < before.len() ==> after[k] == before[k],
    ensures
        picked_sum(sizes, after, t) == picked_sum(sizes, before, t),
    decreases t,
{
    if t > 0 {
        lemma_picked_take(sizes, before, after, t - 1);
    }
}

/// Positions pushed in the order of a scan: the list holds `i` exactly where
/// it was just pushed, and holds the earlier positions as before.
proof fn lemma_pushed_contains(before: Seq<usize>, after: Seq<usize>, i: usize)
    requires
        after == before || after == before.push(i),
    ensures
        after.contains(i) <==> before.contains(i) || after != before,
        forall|k: usize| k != i ==> (after.contains(k) <==> before.contains(k)),
{
    if after == before.push(i) {
        assert(after[before.len() as int] == i);
        assert forall|k: usize| before.contains(k) implies after.contains(k) by {
            let t = choose|t: int| 0 <= t < before.len() && before[t] == k;
            assert(after[t] == k);
        }
        assert forall|k: usize| k != i && after.contains(k) implies before.contains(k) by {
            let t = choose|t: int| 0 <= t < after.len() && after[t] == k;
            assert(before[t] == k);
        }
    }
}

impl Propagator for BinPackingPropagator {
    /// One local id for each load and each item.
    open spec fn local_ids(&self) -> nat {
        self.loads().len() + self.bins().len()
    }

    /// Whether `values` is a packing: it puts each item in one of the bins
    /// and gives each bin the sum of the sizes of its items as its load.
    open spec fn satisfied_by(&self, values: spec_fn(DomainId) -> int) -> bool {
        is_packing(self.loads(), self.bins(), self.sizes(), values)
    }

    /// The loads, the bins and the sizes.
    open spec fn constraint(&self) -> Seq<Seq<int>> {
        self.in_numbers()
    }

    /// On a store on which the propagator finds nothing to do, the loads
    /// are maintained, and the rules of coherence, elimination and
    /// commitment find nothing to do for any bin.
    open spec fn at_fixed_point(&self, store: &Assignments) -> bool {
        self.stable(store)
    }

    /// The load variables and the bin variables.
    open spec fn scope(&self) -> nat {
        let loads = scope_of(self.loads());
        let bins = scope_of(self.bins());
        if loads > bins {
            loads
        } else {
            bins
        }
    }

    /// Registers each load under its index, and each item under its index
    /// after the loads, for every kind of change, and nothing else.
    fn initialise_at_root(&mut self, context: &mut PropagatorConstructorContext) -> (r: Result<
        (),
        PropositionalConjunction,
    >)
        ensures
            r is Ok,
            *final(self) == *old(self),
            forall|j: int, e: IntDomainEvent|
                0 <= j < old(self).loads().len() ==> #[trigger] final(context).watches(
                    old(self).loads()[j],
                    e,
                    LocalId(j as u32),
                ),
            forall|i: int, e: IntDomainEvent|
                0 <= i < old(self).bins().len() ==> #[trigger] final(context).watches(
                    old(self).bins()[i],
                    e,
                    LocalId((old(self).loads().len() + i) as u32),
                ),
            final(context).used_ids() == Set::new(
                |id: u32| id < old(self).loads().len() + old(self).bins().len(),
            ),
            final(context).next_local_id().0 == old(self).loads().len() + old(self).bins().len(),
            forall|x: DomainId, e: IntDomainEvent|
                x.index() < old(context).watch_list().num_domains()
                    ==> #[trigger] final(context).watch_list().watchers(x, e) == old(context).watch_list().watchers(x, e)
                    + registrations(
                    old(self).loads(),
                    0,
                    old(context).propagator(),
                    x,
                    old(self).loads().len() as int,
                ) + registrations(
                    old(self).bins(),
                    old(self).loads().len() as int,
                    old(context).propagator(),
                    x,
                    old(self).bins().len() as int,
                ),
    {
        proof {
            use_type_invariant(&*self);
            self.lemma_within_scope(context.store().num_domains());
            assert(context.used_ids() =~= Set::new(|id: u32| id < 0));
        }
        let ghost start = *context;
        let mut idx: usize = 0;
        while idx < self.loads.len()
            invariant
                self.within_scope(context.store().num_domains()),
                self.loads@.len() <= i32::MAX,
                idx <= self.loads.len(),
                context.wf(),
                context.store() == start.store(),
                context.propagator() == start.propagator(),
                forall|id: u32| #[trigger] context.used_ids().contains(id) ==> id < idx,
                context.used_ids() == Set::new(|id: u32| id < idx),
                context.next_local_id().0 == idx,
                context.watch_list().num_domains() == start.watch_list().num_domains(),
                forall|x: DomainId, e: IntDomainEvent|
                    x.index() < start.watch_list().num_domains()
                        ==> #[trigger] context.watch_list().watchers(x, e)
                        == start.watch_list().watchers(x, e) + registrations(
                        self.loads(),
                        0,
                        start.propagator(),
                        x,
                        idx as int,
                    ),
                forall|j: int, e: IntDomainEvent|
                    0 <= j < idx ==> #[trigger] context.watches(
                        self.loads()[j],
                        e,
                        LocalId(j as u32),
                    ),
            decreases self.loads.len() - idx,
        {
            assert(self.loads()[idx as int].index() < context.store().num_domains());
            let ghost before = *context;
            let events = DomainEvents::any_int();
            let _ = context.register(self.loads[idx], events, LocalId::from(idx as u32));
            proof {
                assert(context.used_ids() =~= Set::new(|id: u32| id < idx + 1));
                assert forall|x: DomainId, e: IntDomainEvent|
                    x.index() < start.watch_list().num_domains() implies #[trigger] context.watch_list().watchers(
                    x,
                    e,
                ) == start.watch_list().watchers(x, e) + registrations(
                    self.loads(),
                    0,
                    start.propagator(),
                    x,
                    idx + 1,
                ) by {
                    let earlier = registrations(self.loads(), 0, start.propagator(), x, idx as int);
                    let added = PropagatorVarId {
                        propagator: start.propagator(),
                        variable: LocalId(idx as u32),
                    };
                    if x == self.loads()[idx as int] {
                        assert((start.watch_list().watchers(x, e) + earlier).push(added)
                            =~= start.watch_list().watchers(x, e) + earlier.push(added));
                    }
                }
                assert forall|j: int, e: IntDomainEvent|
                    0 <= j < idx + 1 implies #[trigger] context.watches(
                    self.loads()[j],
                    e,
                    LocalId(j as u32),
                ) by {
                    assert(self.loads()[j].index() < context.store().num_domains());
                    context.lemma_registered(
                        &before,
                        self.loads()[idx as int],
                        events,
                        LocalId(idx as u32),
                        self.loads()[j],
                        e,
                    );
                }
            }
            idx += 1;
        }
        let mut idx: usize = 0;
        while idx < self.bins.len()
            invariant
                self.within_scope(context.store().num_domains()),
                self.loads@.len() + self.bins@.len() <= u32::MAX,
                idx <= self.bins.len(),
                context.wf(),
                context.store() == start.store(),
                context.propagator() == start.propagator(),
                forall|id: u32| #[trigger]
                    context.used_ids().contains(id) ==> id < self.loads@.len() + idx,
                context.used_ids() == Set::new(|id: u32| id < self.loads@.len() + idx),
                context.next_local_id().0 == self.loads@.len() + idx,
                context.watch_list().num_domains() == start.watch_list().num_domains(),
                forall|x: DomainId, e: IntDomainEvent|
                    x.index() < start.watch_list().num_domains()
                        ==> #[trigger] context.watch_list().watchers(x, e)
                        == start.watch_list().watchers(x, e) + registrations(
                        self.loads(),
                        0,
                        start.propagator(),
                        x,
                        self.loads().len() as int,
                    ) + registrations(
                        self.bins(),
                        self.loads().len() as int,
                        start.propagator(),
                        x,
                        idx as int,
                    ),
                forall|j: int, e: IntDomainEvent|
                    0 <= j < self.loads().len() ==> #[trigger] context.watches(
                        self.loads()[j],
                        e,
                        LocalId(j as u32),
                    ),
                forall|i: int, e: IntDomainEvent|
                    0 <= i < idx ==> #[trigger] context.watches(
                        self.bins()[i],
                        e,
                        LocalId((self.loads().len() + i) as u32),
                    ),
            decreases self.bins.len() - idx,
        {
            assert(self.bins()[idx as int].index() < context.store().num_domains());
            let ghost before = *context;
            let events = DomainEvents::any_int();
            let _ = context.register(
                self.bins[idx],
                events,
                LocalId::from((self.loads.len() + idx) as u32),
            );
            proof {
                assert(context.used_ids() =~= Set::new(
                    |id: u32| id < self.loads@.len() + idx + 1,
                ));
                assert forall|x: DomainId, e: IntDomainEvent|
                    x.index() < start.watch_list().num_domains() implies #[trigger] context.watch_list().watchers(
                    x,
                    e,
                ) == start.watch_list().watchers(x, e) + registrations(
                    self.loads(),
                    0,
                    start.propagator(),
                    x,
                    self.loads().len() as int,
                ) + registrations(
                    self.bins(),
                    self.loads().len() as int,
                    start.propagator(),
                    x,
                    idx + 1,
                ) by {
                    let first = start.watch_list().watchers(x, e) + registrations(
                        self.loads(),
                        0,
                        start.propagator(),
                        x,
                        self.loads().len() as int,
                    );
                    let earlier = registrations(
                        self.bins(),
                        self.loads().len() as int,
                        start.propagator(),
                        x,
                        idx as int,
                    );
                    let added = PropagatorVarId {
                        propagator: start.propagator(),
                        variable: LocalId((self.loads().len() + idx) as u32),
                    };
                    if x == self.bins()[idx as int] {
                        assert((first + earlier).push(added) =~= first + earlier.push(added));
                    }
                }
                assert forall|j: int, e: IntDomainEvent|
                    0 <= j < self.loads().len() implies #[trigger] context.watches(
                    self.loads()[j],
                    e,
                    LocalId(j as u32),
                ) by {
                    assert(self.loads()[j].index() < context.store().num_domains());
                    context.lemma_registered(
                        &before,
                        self.bins()[idx as int],
                        events,
                        LocalId((self.loads().len() + idx) as u32),
                        self.loads()[j],
                        e,
                    );
                }
                assert forall|i: int, e: IntDomainEvent|
                    0 <= i < idx + 1 implies #[trigger] context.watches(
                    self.bins()[i],
                    e,
                    LocalId((self.loads().len() + i) as u32),
                ) by {
                    assert(self.bins()[i].index() < context.store().num_domains());
                    context.lemma_registered(
                        &before,
                        self.bins()[idx as int],
                        events,
                        LocalId((self.loads().len() + idx) as u32),
                        self.bins()[i],
                        e,
                    );
                }
            }
            idx += 1;
        }
        Ok(())
    }

    fn name(&self) -> (r: &str)
        ensures
            r@ == "Bin Packing"@,
    {
        "Bin Packing"
    }

    /// Applies the rules of the constraint to each bin in turn.
    ///
    /// No solution of the constraint is lost, and an inconsistency is
    /// reported only where there is none. Each change has the reason that
    /// its rule gives for it. On a store for which no rule finds anything
    /// to do nothing changes, and a run that changes nothing shows that the
    /// store is such a one. Where the constraint has one bin,
    /// its load becomes the sum of all sizes. Where all loads and items are
    /// fixed and no inconsistency is reported, each load is the sum of the
    /// sizes of the items in its bin.
    fn debug_propagate_from_scratch(&self, context: &mut PropagationContextMut) -> (r:
        PropagationStatusCP)
        ensures
            self.keeps_solutions(old(context).store(), final(context).store()),
            r is Err ==> self.has_no_solution(old(context).store()),
            r is Ok && self.loads().len() == 1 ==> forall|v: int|
                final(context).store().contains(self.loads()[0], v) <==> v == total_size(
                    self.sizes(),
                ),
            self.all_explained(
                old(context).store(),
                old(context).store().trail_len() as int,
                final(context).store(),
                old(context).reification_predicates(),
            ),
            self.stable(old(context).store()) ==> r is Ok && final(context).store().unchanged_since(
                old(context).store(),
            ),
            r is Ok && final(context).store().unchanged_since(old(context).store())
                ==> self.stable(old(context).store()),
            r is Ok ==> forall|j: int|
                0 <= j < self.loads().len() ==> #[trigger] self.coherent_with(
                    old(context).store(),
                    final(context).store(),
                    j,
                ),
            r is Ok ==> forall|j: int|
                0 <= j < self.loads().len() && self.load_apart(j) ==> #[trigger] self.eliminated_from(
                    old(context).store(),
                    final(context).store(),
                    j,
                ),
            r is Ok && all_fixed(old(context).store(), self.loads()) && all_fixed(
                old(context).store(),
                self.bins(),
            ) ==> forall|j: int|
                0 <= j < self.loads().len() ==> old(context).store().lower(
                    #[trigger] self.loads()[j],
                ) == bin_sum(
                    self.bins(),
                    self.sizes(),
                    assigned_values(old(context).store()),
                    j,
                    self.bins().len() as int,
                ),
    {
        proof {
            use_type_invariant(self);
            self.lemma_within_scope(context.store().num_domains());
            context.store().lemma_extends_reflexive();
        }
        let ghost start = *context;
        let ghost fixed = all_fixed(start.store(), self.loads()) && all_fixed(
            start.store(),
            self.bins(),
        );
        // Amount of bins
        let bin_count = self.loads.len();
        let mut j: usize = 0;
        while j < bin_count
            invariant
                self.valid(),
                bin_count == self.loads@.len(),
                j <= bin_count,
                context.wf(),
                start.wf(),
                start == *old(context),
                context.continues(&start),
                self.scope() <= start.store().num_domains(),
                self.within_scope(context.store().num_domains()),
                self.keeps_solutions(start.store(), context.store()),
                fixed == (all_fixed(start.store(), self.loads()) && all_fixed(
                    start.store(),
                    self.bins(),
                )),
                bin_count == 1 && j == 1 ==> forall|v: int|
                    context.store().contains(self.loads()[0], v) ==> v == total_size(
                        self.sizes(),
                    ),
                fixed ==> forall|k: int|
                    0 <= k < j ==> start.store().lower(#[trigger] self.loads()[k]) == bin_sum(
                        self.bins(),
                        self.sizes(),
                        assigned_values(start.store()),
                        k,
                        self.bins().len() as int,
                    ),
                context.store().unchanged_since(start.store()) ==> forall|k: int|
                    0 <= k < j ==> #[trigger] self.bin_stable(start.store(), k),
                self.all_explained(
                    start.store(),
                    start.store().trail_len() as int,
                    context.store(),
                    start.reification_predicates(),
                ),
                context.store().unchanged_since(start.store()) ==> forall|k: int, v: int|
                    0 <= k < j && #[trigger] start.store().contains(self.loads()[k], v)
                        ==> required_sum(
                        start.store(),
                        self.bins(),
                        self.sizes(),
                        k,
                        self.bins().len() as int,
                    ) <= v <= required_sum(
                        start.store(),
                        self.bins(),
                        self.sizes(),
                        k,
                        self.bins().len() as int,
                    ) + candidate_sum(
                        start.store(),
                        self.bins(),
                        self.sizes(),
                        k,
                        self.bins().len() as int,
                    ),
                self.stable(start.store()) ==> context.store().unchanged_since(start.store()),
                forall|k: int|
                    0 <= k < j ==> #[trigger] self.coherent_with(start.store(), context.store(), k),
                forall|k: int|
                    0 <= k < j && self.load_apart(k) ==> #[trigger] self.eliminated_from(
                        start.store(),
                        context.store(),
                        k,
                    ),
            decreases bin_count - j,
        {
            let ghost before = *context;
            proof {
                if self.stable(start.store()) {
                    self.lemma_loads_maintained(start.store(), before.store());
                    assert forall|k: int| 0 <= k < self.loads().len() implies #[trigger] self.bin_stable(
                        before.store(),
                        k,
                    ) by {
                        self.lemma_bin_stable(start.store(), before.store(), k);
                    }
                }
            }
            let result = self.propagate_bin(context, j);
            proof {
                if self.stable(start.store()) {
                    context.store().lemma_unchanged_transitive(before.store(), start.store());
                }
                if result is Ok {
                    assert forall|k: int|
                        0 <= k < j + 1 && self.load_apart(k) implies #[trigger] self.eliminated_from(
                        start.store(),
                        context.store(),
                        k,
                    ) by {
                        self.lemma_eliminated_later(
                            start.store(),
                            before.store(),
                            context.store(),
                            k,
                            j as int,
                        );
                    }
                }
                if result is Ok {
                    before.store().lemma_extends_reflexive();
                    context.store().lemma_extends_reflexive();
                    start.store().lemma_extends_reflexive();
                    assert forall|k: int| 0 <= k < j + 1 implies #[trigger] self.coherent_with(
                        start.store(),
                        context.store(),
                        k,
                    ) by {
                        if k < j {
                            self.lemma_coherent_with(
                                start.store(),
                                start.store(),
                                before.store(),
                                context.store(),
                                k,
                            );
                        } else {
                            self.lemma_coherent_with(
                                start.store(),
                                before.store(),
                                context.store(),
                                context.store(),
                                k,
                            );
                        }
                    }
                }
                self.lemma_explained_chain(
                    start.store(),
                    before.store(),
                    before.store(),
                    context.store(),
                    start.store().trail_len() as int,
                    start.reification_predicates(),
                );
                context.store().lemma_extends_transitive(before.store(), start.store());
                if result is Ok && context.store().unchanged_since(start.store()) {
                    let view_store = choose|view_store: Assignments|
                        {
                            &&& view_store.wf()
                            &&& #[trigger] view_store.extends(before.store())
                            &&& context.store().extends(&view_store)
                            &&& (forall|v: int|
                                context.store().contains(
                                    self.loads()[j as int],
                                    v,
                                ) ==> required_sum(
                                    &view_store,
                                    self.bins(),
                                    self.sizes(),
                                    j as int,
                                    self.bins().len() as int,
                                ) <= v <= required_sum(
                                    &view_store,
                                    self.bins(),
                                    self.sizes(),
                                    j as int,
                                    self.bins().len() as int,
                                ) + candidate_sum(
                                    &view_store,
                                    self.bins(),
                                    self.sizes(),
                                    j as int,
                                    self.bins().len() as int,
                                ))
                        };
                    context.store().lemma_unchanged_between(before.store(), start.store());
                    self.lemma_bin_stable(before.store(), start.store(), j as int);
                    context.store().lemma_unchanged_between(&view_store, before.store());
                    view_store.lemma_unchanged_transitive(before.store(), start.store());
                    let any = Predicate::LowerBound {
                        domain_id: DomainId { id: 0 },
                        lower_bound: 0,
                    };
                    view_store.lemma_unchanged(start.store(), any);
                    context.store().lemma_unchanged(start.store(), any);
                    lemma_sums_same(
                        start.store(),
                        &view_store,
                        self.bins(),
                        self.sizes(),
                        j as int,
                        self.bins().len() as int,
                    );
                    assert forall|v: int|
                        start.store().contains(self.loads()[j as int], v) implies required_sum(
                        start.store(),
                        self.bins(),
                        self.sizes(),
                        j as int,
                        self.bins().len() as int,
                    ) <= v <= required_sum(
                        start.store(),
                        self.bins(),
                        self.sizes(),
                        j as int,
                        self.bins().len() as int,
                    ) + candidate_sum(
                        start.store(),
                        self.bins(),
                        self.sizes(),
                        j as int,
                        self.bins().len() as int,
                    ) by {
                        assert(context.store().contains(self.loads()[j as int], v));
                    }
                }
                if result is Ok && fixed {
                    let view_store = choose|view_store: Assignments|
                        {
                            &&& view_store.wf()
                            &&& #[trigger] view_store.extends(before.store())
                            &&& context.store().extends(&view_store)
                            &&& (forall|v: int|
                                context.store().contains(
                                    self.loads()[j as int],
                                    v,
                                ) ==> required_sum(
                                    &view_store,
                                    self.bins(),
                                    self.sizes(),
                                    j as int,
                                    self.bins().len() as int,
                                ) <= v <= required_sum(
                                    &view_store,
                                    self.bins(),
                                    self.sizes(),
                                    j as int,
                                    self.bins().len() as int,
                                ) + candidate_sum(
                                    &view_store,
                                    self.bins(),
                                    self.sizes(),
                                    j as int,
                                    self.bins().len() as int,
                                ))
                        };
                    view_store.lemma_extends_transitive(before.store(), start.store());
                    assert forall|i: int| 0 <= i < self.bins().len() implies start.store().has(
                        #[trigger] self.bins()[i],
                    ) by {}
                    lemma_all_fixed_sums(
                        start.store(),
                        &view_store,
                        self.bins(),
                        self.sizes(),
                        j as int,
                        self.bins().len() as int,
                    );
                    let load = self.loads()[j as int];
                    assert(start.store().is_fixed(load));
                    assert(load.index() < start.store().num_domains());
                    context.store().lemma_fixed_stays(start.store(), load);
                    assert(context.store().contains(load, start.store().lower(load)));
                }
            }
            match result {
                Err(e) => {
                    proof {
                        self.lemma_explained_carries(&start, context);
                        self.lemma_allowed_kept(start.store(), context.store());
                        self.lemma_allowed_refuted(start.store());
                    }
                    return Err(e);
                },
                Ok(_) => {},
            }
            j += 1;
        }
        proof {
            self.lemma_allowed_kept(start.store(), context.store());
            if bin_count == 1 {
                let load = self.loads()[0];
                assert(load.index() < context.store().num_domains());
                context.store().lemma_bounds(context.store().trail_len() as int, load);
                assert(context.store().contains(load, context.store().lower(load)));
            }
            self.lemma_explained_carries(&start, context);
            if context.store().unchanged_since(start.store()) {
                assert(self.loads_maintained(start.store()));
                assert forall|later: Assignments|
                    later.wf() && #[trigger] later.unchanged_since(
                        context.store(),
                    ) implies self.at_fixed_point(&later) by {
                    later.lemma_unchanged_transitive(context.store(), start.store());
                    self.lemma_loads_maintained(start.store(), &later);
                    assert forall|k: int| 0 <= k < self.loads().len() implies #[trigger] self.bin_stable(
                        &later,
                        k,
                    ) by {
                        self.lemma_bin_stable(start.store(), &later, k);
                    }
                }
            }
        }
        Ok(())
    }
}

/// Sizes that are a rearrangement of non-negative sizes are non-negative
/// and have the same sum.
proof fn lemma_sorted_total(
    sizes: Seq<i32>,
    bins: Seq<DomainId>,
    sorted_sizes: Seq<i32>,
    sorted_bins: Seq<DomainId>,
)
    requires
        bins.len() == sizes.len(),
        sorted_bins.len() == sorted_sizes.len(),
        non_negative(sizes),
        items_of(sorted_bins, sorted_sizes).to_multiset() == items_of(bins, sizes).to_multiset(),
    ensures
        non_negative(sorted_sizes),
        total_size(sorted_sizes) == total_size(sizes),
        sorted_sizes.len() == sizes.len(),
{
    let a = items_of(sorted_bins, sorted_sizes);
    let b = items_of(bins, sizes);
    vstd::seq_lib::to_multiset_len(a);
    vstd::seq_lib::to_multiset_len(b);
    assert forall|i: int| 0 <= i < sorted_sizes.len() implies sorted_sizes[i] >= 0 by {
        vstd::seq_lib::to_multiset_contains(a, a[i]);
        vstd::seq_lib::to_multiset_contains(b, a[i]);
        assert(a.contains(a[i]));
        assert(b.contains(a[i]));
        let k = choose|k: int| 0 <= k < b.len() && b[k] == a[i];
        assert(sizes[k] == a[i].1);
    }
    lemma_items_total(sorted_bins, sorted_sizes, sorted_sizes.len() as int);
    lemma_items_total(bins, sizes, sizes.len() as int);
    let f = |acc: int, item: (DomainId, i32)| acc + item.1;
    vstd::seq_lib::lemma_fold_left_permutation(a, b, f, 0int);
    assert(a.take(a.len() as int) =~= a);
    assert(b.take(b.len() as int) =~= b);
}

/// Adds the size of an item to a sum where `values` puts the item in bin
/// `j`.
pub open spec fn filling(values: spec_fn(DomainId) -> int, j: int) -> spec_fn(
    int,
    (DomainId, i32),
) -> int {
    |acc: int, item: (DomainId, i32)|
        acc + if values(item.0) == j {
            item.1 as int
        } else {
            0
        }
}

/// What fills a bin is a sum over the items in whatever order.
proof fn lemma_items_bin_sum(
    bins: Seq<DomainId>,
    sizes: Seq<i32>,
    values: spec_fn(DomainId) -> int,
    j: int,
    n: int,
)
    requires
        bins.len() == sizes.len(),
        0 <= n <= sizes.len(),
    ensures
        items_of(bins, sizes).take(n).fold_left(0int, filling(values, j)) == bin_sum(
            bins,
            sizes,
            values,
            j,
            n,
        ),
    decreases n,
{
    let items = items_of(bins, sizes);
    if n > 0 {
        lemma_items_bin_sum(bins, sizes, values, j, n - 1);
        assert(items.take(n).drop_last() =~= items.take(n - 1));
        assert(items.take(n).last() == items[n - 1]);
    } else {
        assert(items.take(0) =~= Seq::<(DomainId, i32)>::empty());
    }
}

/// A packing of items is a packing of the same items in any other order:
/// each item is in one of the bins, and each load is the sum of the sizes
/// of the items in its bin.
pub proof fn lemma_packing_rearranged(
    loads: Seq<DomainId>,
    bins: Seq<DomainId>,
    sizes: Seq<i32>,
    other_bins: Seq<DomainId>,
    other_sizes: Seq<i32>,
    values: spec_fn(DomainId) -> int,
)
    requires
        bins.len() == sizes.len(),
        other_bins.len() == other_sizes.len(),
        items_of(other_bins, other_sizes).to_multiset() == items_of(bins, sizes).to_multiset(),
        is_packing(loads, bins, sizes, values),
    ensures
        is_packing(loads, other_bins, other_sizes, values),
{
    let a = items_of(other_bins, other_sizes);
    let b = items_of(bins, sizes);
    vstd::seq_lib::to_multiset_len(a);
    vstd::seq_lib::to_multiset_len(b);
    assert forall|i: int| 0 <= i < other_bins.len() implies 0 <= values(#[trigger] other_bins[i])
        < loads.len() by {
        vstd::seq_lib::to_multiset_contains(a, a[i]);
        vstd::seq_lib::to_multiset_contains(b, a[i]);
        assert(a.contains(a[i]));
        assert(b.contains(a[i]));
        let k = choose|k: int| 0 <= k < b.len() && b[k] == a[i];
        assert(bins[k] == other_bins[i]);
    }
    assert forall|j: int| 0 <= j < loads.len() implies values(#[trigger] loads[j]) == bin_sum(
        other_bins,
        other_sizes,
        values,
        j,
        other_bins.len() as int,
    ) by {
        let f = filling(values, j);
        lemma_items_bin_sum(other_bins, other_sizes, values, j, other_sizes.len() as int);
        lemma_items_bin_sum(bins, sizes, values, j, sizes.len() as int);
        vstd::seq_lib::lemma_fold_left_permutation(a, b, f, 0int);
        assert(a.take(a.len() as int) =~= a);
        assert(b.take(b.len() as int) =~= b);
        assert(a.len() == other_sizes.len());
        assert(b.len() == sizes.len());
        assert(a.fold_left(0int, f) == bin_sum(
            other_bins,
            other_sizes,
            values,
            j,
            other_sizes.len() as int,
        ));
        assert(b.fold_left(0int, f) == bin_sum(bins, sizes, values, j, sizes.len() as int));
        assert(values(loads[j]) == bin_sum(bins, sizes, values, j, bins.len() as int));
    }
}

proof fn lemma_items_total(bins: Seq<DomainId>, sizes: Seq<i32>, n: int)
    requires
        bins.len() == sizes.len(),
        0 <= n <= sizes.len(),
    ensures
        items_of(bins, sizes).take(n).fold_left(0int, |acc: int, item: (DomainId, i32)| acc + item.1)
            == prefix_sum(sizes, n),
    decreases n,
{
    let f = |acc: int, item: (DomainId, i32)| acc + item.1;
    let items = items_of(bins, sizes);
    if n > 0 {
        lemma_items_total(bins, sizes, n - 1);
        assert(items.take(n).drop_last() =~= items.take(n - 1));
        assert(items.take(n).last() == items[n - 1]);
    } else {
        assert(items.take(0) =~= Seq::<(DomainId, i32)>::empty());
    }
}

} // verus!
